//! The state of a walk, and what each directory that was read adds to it.

use std::collections::HashMap;

use vstd::prelude::*;
use crate::model;
use crate::model::{Kind, Node, NodeId, Sizes, State, Tree, NO_NODE, ROOT};
use crate::paths;
use crate::plan;
use crate::plan::Plan;
use crate::scan;
use crate::scan::{Dedupe, Families, Family, Progress, ScanResult, Stats};
use crate::sys::attrlist::Entry;
use crate::sys::ffi::{EF_IS_SPARSE, SF_DATALESS, UF_COMPRESSED, VDIR, VLNK, VREG};
use crate::sys::iopolicy::Policies;

verus! {

broadcast use vstd::std_specs::hash::group_hash_axioms;

/// A directory waiting to be read.
pub struct Task {
    pub id: NodeId,
    pub path: Vec<u8>,
}

/// What becomes of an entry of a directory.
#[derive(Clone, Copy)]
pub struct Pending {
    pub kind: Kind,
    pub state: State,
    pub detail: i32,
    pub flags: u32,
    pub ext_flags: u8,
    pub mtime: i64,
    pub size: Sizes,
    pub hardlink_alias: bool,
    /// The entry is a directory that is to be read.
    pub descend: bool,
    /// The clone family, or zero where the entry counts in none.
    pub cloneid: u64,
}

/// The volume and the file number that tell an object from every other.
pub open spec fn identity_of(e: Entry) -> (i64, u64) {
    (e.realfsid, e.fileid)
}

/// The entry could be met again at another place: a directory through a
/// firmlink, a file through a further hard link.
pub open spec fn claims(e: Entry) -> bool {
    e.error == 0 && (e.objtype == VDIR || (e.objtype == VREG && e.linkcount > 1))
}

/// A further hard link to a file that was met before.
pub open spec fn is_alias(e: Entry, seen: Set<(i64, u64)>) -> bool {
    e.error == 0 && e.objtype == VREG && e.linkcount > 1 && seen.contains(identity_of(e))
}

/// A file that counts as a member of a clone family.
pub open spec fn joins_family(e: Entry, seen: Set<(i64, u64)>) -> bool {
    e.error == 0 && e.objtype == VREG && !is_alias(e, seen) && e.is_shared()
}

/// A directory that was not met before, and is no mount point inside the volume
/// group, is to be read.
pub open spec fn descends(e: Entry, in_group: bool, seen: Set<(i64, u64)>) -> bool {
    e.error == 0 && e.objtype == VDIR && !seen.contains(identity_of(e)) && !in_group
}

pub open spec fn kind_of(e: Entry) -> Kind {
    if e.error != 0 {
        Kind::Other
    } else if e.objtype == VDIR {
        Kind::Dir
    } else if e.objtype == VLNK {
        Kind::Symlink
    } else if e.objtype == VREG {
        Kind::File
    } else {
        Kind::Other
    }
}

/// What becomes of an entry, where `seen` are the objects that were met before.
pub open spec fn verdict(e: Entry, in_group: bool, seen: Set<(i64, u64)>) -> Pending {
    if e.error != 0 {
        Pending {
            kind: Kind::Other,
            state: scan::refusal_state(e.error as i32 as int),
            detail: e.error as i32,
            flags: 0,
            ext_flags: 0,
            mtime: 0,
            size: Sizes::nothing(),
            hardlink_alias: false,
            descend: false,
            cloneid: 0,
        }
    } else {
        Pending {
            kind: kind_of(e),
            state: if e.objtype == VDIR && !descends(e, in_group, seen) {
                State::Skipped
            } else {
                State::Scanned
            },
            detail: 0,
            flags: e.flags,
            ext_flags: (e.ext_flags & 0xff) as u8,
            mtime: e.mtime,
            size: if e.objtype == VREG && !is_alias(e, seen) {
                scan::split(e)
            } else {
                Sizes::nothing()
            },
            hardlink_alias: is_alias(e, seen),
            descend: descends(e, in_group, seen),
            cloneid: if joins_family(e, seen) {
                e.cloneid
            } else {
                0
            },
        }
    }
}

pub open spec fn seen_with(seen: Set<(i64, u64)>, e: Entry) -> Set<(i64, u64)> {
    if claims(e) {
        seen.insert(identity_of(e))
    } else {
        seen
    }
}

pub open spec fn families_with(
    families: Map<u64, Family>,
    e: Entry,
    seen: Set<(i64, u64)>,
) -> Map<u64, Family> {
    if joins_family(e, seen) {
        scan::with_family_member(families, e.cloneid, e.clone_refcnt, scan::split(e).shared_clones)
    } else {
        families
    }
}

/// A count, raised by one if the condition holds.
pub open spec fn plus_if(n: u64, c: bool) -> u64 {
    if c {
        (n + 1) as u64
    } else {
        n
    }
}

pub open spec fn stats_with(s: Stats, e: Entry, seen: Set<(i64, u64)>) -> Stats {
    let file = e.error == 0 && e.objtype == VREG;
    Stats {
        files: plus_if(s.files, file),
        symlinks: plus_if(s.symlinks, e.error == 0 && e.objtype == VLNK),
        hardlink_aliases: plus_if(s.hardlink_aliases, is_alias(e, seen)),
        dataless: plus_if(s.dataless, file && e.flags & SF_DATALESS != 0),
        compressed: plus_if(s.compressed, file && e.flags & UF_COMPRESSED != 0),
        sparse: plus_if(s.sparse, file && e.ext_flags & EF_IS_SPARSE != 0),
        clone_members: plus_if(s.clone_members, joins_family(e, seen)),
        errors: plus_if(s.errors, e.error != 0),
        ..s
    }
}

/// The names that stand for the directory itself and for its parent, or for
/// nothing.
pub open spec fn is_dots(name: Seq<u8>) -> bool {
    name.len() == 0 || name == seq![paths::DOT] || name == seq![paths::DOT, paths::DOT]
}

/// The books of a walk.
#[verifier::ext_equal]
pub struct Book {
    pub nodes: Seq<Node>,
    pub names: Seq<u8>,
    pub seen: Set<(i64, u64)>,
    pub families: Map<u64, Family>,
    pub clone_of: Map<NodeId, u64>,
    pub stats: Stats,
    /// The bytes allocated to what was met, modulo the width of the count.
    pub physical: u64,
    /// The directories to be read, with their paths. The last one is next.
    pub stack: Seq<(NodeId, Seq<u8>)>,
}

/// The node of an entry in the directory `dir`, whose name goes behind so many
/// bytes of names.
pub open spec fn node_for(e: Entry, p: Pending, dir: NodeId, names: nat) -> Node {
    Node {
        name_off: (names % 0x1_0000_0000) as u32,
        name_len: (e.name@.len() % 0x1_0000) as u16,
        kind: p.kind,
        state: p.state,
        detail: p.detail,
        parent: dir,
        first_child: NO_NODE,
        child_count: 0,
        unknown_below: 0,
        flags: p.flags,
        ext_flags: p.ext_flags,
        hardlink_alias: p.hardlink_alias,
        mtime: p.mtime,
        size: p.size,
    }
}

/// The books once one entry of the directory `dir` at `path` is taken in.
pub open spec fn with_entry(b: Book, e: Entry, dir: NodeId, path: Seq<u8>, plan: Plan) -> Book {
    if is_dots(e.name@) {
        b
    } else {
        let child = paths::joined(path, e.name@);
        let p = verdict(e, plan.in_group(child), b.seen);
        let id = b.nodes.len() as NodeId;
        Book {
            nodes: b.nodes.push(node_for(e, p, dir, b.names.len())),
            names: b.names + e.name@,
            seen: seen_with(b.seen, e),
            families: families_with(b.families, e, b.seen),
            clone_of: if p.cloneid != 0 {
                b.clone_of.insert(id, p.cloneid)
            } else {
                b.clone_of
            },
            stats: stats_with(b.stats, e, b.seen),
            physical: ((b.physical + p.size.physical) % 0x1_0000_0000_0000_0000) as u64,
            stack: if p.descend {
                b.stack.push((id, child))
            } else {
                b.stack
            },
        }
    }
}

/// The books once the first `n` entries are taken in, in their order.
pub open spec fn with_entries(
    b: Book,
    entries: Seq<Entry>,
    n: int,
    dir: NodeId,
    path: Seq<u8>,
    plan: Plan,
) -> Book
    decreases n,
{
    if n <= 0 {
        b
    } else {
        with_entry(with_entries(b, entries, n - 1, dir, path, plan), entries[n - 1], dir, path, plan)
    }
}

/// The directory once its entries, which take the ids from `first` up to `end`,
/// are in the tree. If the listing broke off, the directory is not fully scanned.
pub open spec fn listed_dir(n: Node, first: int, end: int, broken: Option<i32>) -> Node {
    Node {
        first_child: if first == end {
            NO_NODE
        } else {
            first as NodeId
        },
        child_count: (end - first) as u32,
        state: match broken {
            Some(errno) => scan::refusal_state(errno as int),
            None => n.state,
        },
        detail: match broken {
            Some(errno) => errno,
            None => n.detail,
        },
        ..n
    }
}

/// The books once a directory is read, whose listing may have broken off with
/// an error.
pub open spec fn with_listing(
    b: Book,
    entries: Seq<Entry>,
    broken: Option<i32>,
    dir: NodeId,
    path: Seq<u8>,
    plan: Plan,
) -> Book {
    let c = with_entries(b, entries, entries.len() as int, dir, path, plan);
    Book {
        nodes: c.nodes.update(
            dir as int,
            listed_dir(
                c.nodes[dir as int],
                b.nodes.len() as int,
                c.nodes.len() as int,
                broken,
            ),
        ),
        stats: Stats {
            dirs: (c.stats.dirs + 1) as u64,
            errors: plus_if(c.stats.errors, broken is Some),
            ..c.stats
        },
        ..c
    }
}

/// The members of a clone family.
pub open spec fn members(clone_of: Map<NodeId, u64>, c: u64) -> Set<NodeId> {
    clone_of.dom().filter(|id: NodeId| clone_of[id] == c)
}

/// Node `id` was met as a member of the family `c`, and shares as much as the
/// family does.
pub open spec fn speaks_for(b: Book, c: u64, id: NodeId) -> bool {
    &&& id < b.nodes.len()
    &&& b.nodes[id as int].kind is File
    &&& b.nodes[id as int].size.shared_clones >= b.families[c].shared_bytes
    &&& if c == 0 {
        !b.clone_of.contains_key(id)
    } else {
        b.clone_of.contains_key(id) && b.clone_of[id] == c
    }
}

/// The families and their members fit together: every member is a file in the
/// tree and belongs to a family that is known, a family counts its members, and
/// what it shares one of them shares. The id zero stands for no family.
pub open spec fn accounted(b: Book) -> bool {
    &&& forall|c: u64| #[trigger]
        b.families.contains_key(c) ==> exists|id: NodeId| speaks_for(b, c, id)
    &&& b.clone_of.dom().finite()
    &&& forall|id: NodeId| #[trigger]
        b.clone_of.contains_key(id) ==> {
            &&& id < b.nodes.len()
            &&& b.nodes[id as int].kind is File
            &&& b.clone_of[id] != 0
            &&& b.families.contains_key(b.clone_of[id])
        }
    &&& forall|c: u64| #[trigger]
        b.families.contains_key(c) && c != 0 ==> b.families[c].seen == members(b.clone_of, c).len()
}

proof fn lemma_entry_accounts(b: Book, e: Entry, d: NodeId, path: Seq<u8>, plan: Plan)
    requires
        accounted(b),
        b.nodes.len() < u32::MAX,
        forall|c: u64| #[trigger]
            b.families.contains_key(c) ==> b.families[c].seen <= b.nodes.len(),
    ensures
        accounted(with_entry(b, e, d, path, plan)),
{
    let a = with_entry(b, e, d, path, plan);
    if !is_dots(e.name@) {
        let id = b.nodes.len() as NodeId;
        let child = paths::joined(path, e.name@);
        let p = verdict(e, plan.in_group(child), b.seen);
        let m = b.clone_of;
        assert(!m.contains_key(id)) by {
            if m.contains_key(id) {
                assert(id < b.nodes.len());
            }
        }
        assert forall|c: u64| #[trigger] members(m, c).finite() by {
            m.dom().lemma_len_filter(|id: NodeId| m[id] == c);
        }
        if p.cloneid != 0 {
            let m2 = m.insert(id, p.cloneid);
            assert(a.clone_of == m2);
            assert(members(m2, p.cloneid) =~= members(m, p.cloneid).insert(id));
            assert forall|c: u64| c != p.cloneid implies #[trigger] members(m2, c) == members(
                m,
                c,
            ) by {
                assert(members(m2, c) =~= members(m, c));
            }
            if !b.families.contains_key(p.cloneid) {
                assert(members(m, p.cloneid) =~= Set::empty()) by {
                    assert forall|x: NodeId| !members(m, p.cloneid).contains(x) by {
                        if members(m, p.cloneid).contains(x) {
                            assert(m.contains_key(x));
                        }
                    }
                }
            } else {
                assert(b.families[p.cloneid].seen <= b.nodes.len());
            }
        }
        assert forall|x: NodeId| #[trigger] a.clone_of.contains_key(x) implies {
            &&& x < a.nodes.len()
            &&& a.nodes[x as int].kind is File
            &&& a.clone_of[x] != 0
            &&& a.families.contains_key(a.clone_of[x])
        } by {
            if x != id || p.cloneid == 0 {
                assert(b.clone_of.contains_key(x));
                assert(a.nodes[x as int] == b.nodes[x as int]);
            }
        }
        assert forall|c: u64| #[trigger] a.families.contains_key(c) && c != 0 implies
            a.families[c].seen == members(a.clone_of, c).len() by {
            if joins_family(e, b.seen) && c == e.cloneid {
                assert(p.cloneid == c);
            } else {
                assert(b.families.contains_key(c));
            }
        }
        assert forall|c: u64| #[trigger] a.families.contains_key(c) implies exists|x: NodeId|
            speaks_for(a, c, x) by {
            if joins_family(e, b.seen) && c == e.cloneid && (!b.families.contains_key(c)
                || b.families[c].shared_bytes <= p.size.shared_clones) {
                assert(a.nodes[id as int].size == p.size);
                assert(speaks_for(a, c, id));
            } else {
                assert(b.families.contains_key(c));
                let x = choose|x: NodeId| speaks_for(b, c, x);
                assert(a.nodes[x as int] == b.nodes[x as int]);
                assert(speaks_for(a, c, x));
            }
        }
    }
}

/// How many of the first `n` nodes are of a kind.
pub open spec fn count_kind(nodes: Seq<Node>, kind: Kind, n: int) -> int
    decreases n,
{
    if n <= 0 {
        0
    } else if nodes[n - 1].kind == kind {
        count_kind(nodes, kind, n - 1) + 1
    } else {
        count_kind(nodes, kind, n - 1)
    }
}

/// How many of the first `n` nodes are further links to files that count
/// elsewhere.
pub open spec fn count_aliases(nodes: Seq<Node>, n: int) -> int
    decreases n,
{
    if n <= 0 {
        0
    } else if nodes[n - 1].hardlink_alias {
        count_aliases(nodes, n - 1) + 1
    } else {
        count_aliases(nodes, n - 1)
    }
}

/// The counts are those of the tree.
pub open spec fn counted(b: Book) -> bool {
    let n = b.nodes.len() as int;
    &&& b.stats.files == count_kind(b.nodes, Kind::File, n)
    &&& b.stats.symlinks == count_kind(b.nodes, Kind::Symlink, n)
    &&& b.stats.hardlink_aliases == count_aliases(b.nodes, n)
}

proof fn lemma_count_local(a: Seq<Node>, b: Seq<Node>, n: int)
    requires
        n <= a.len(),
        n <= b.len(),
        forall|i: int|
            0 <= i < n ==> (#[trigger] a[i]).kind == b[i].kind && a[i].hardlink_alias
                == b[i].hardlink_alias,
    ensures
        count_kind(a, Kind::File, n) == count_kind(b, Kind::File, n),
        count_kind(a, Kind::Symlink, n) == count_kind(b, Kind::Symlink, n),
        count_aliases(a, n) == count_aliases(b, n),
    decreases n,
{
    if n > 0 {
        lemma_count_local(a, b, n - 1);
        assert(a[n - 1].kind == b[n - 1].kind);
    }
}

proof fn lemma_entries_count(
    b: Book,
    entries: Seq<Entry>,
    n: int,
    d: NodeId,
    path: Seq<u8>,
    plan: Plan,
    running: Seq<NodeId>,
    listed: Set<NodeId>,
    first: int,
)
    requires
        counted(b),
        taking_in(b, running, listed, d, first),
        0 <= n <= entries.len(),
        b.nodes.len() + n <= u32::MAX,
    ensures
        counted(with_entries(b, entries, n, d, path, plan)),
        with_entries(b, entries, n, d, path, plan).stats.dirs == b.stats.dirs,
    decreases n,
{
    if n > 0 {
        lemma_entries_count(b, entries, n - 1, d, path, plan, running, listed, first);
        lemma_entries_keep(b, entries, n - 1, d, path, plan, running, listed, first);
        let m = with_entries(b, entries, n - 1, d, path, plan);
        let a = with_entries(b, entries, n, d, path, plan);
        lemma_count_local(m.nodes, a.nodes, m.nodes.len() as int);
    }
}

/// Node `i` waits to be read.
pub open spec fn waits(b: Book, i: int) -> bool {
    exists|k: int| 0 <= k < b.stack.len() && (#[trigger] b.stack[k]).0 == i
}

/// A directory that is open: in the tree, but with its contents still unknown.
pub open spec fn open_dir(b: Book, listed: Set<NodeId>, id: NodeId) -> bool {
    &&& id < b.nodes.len()
    &&& b.nodes[id as int].kind is Dir
    &&& b.nodes[id as int].state is Scanned
    &&& b.nodes[id as int].child_count == 0
    &&& !listed.contains(id)
}

/// Every directory is open at one place: it waits once, or is being read once.
pub open spec fn open_once(b: Book, running: Seq<NodeId>) -> bool {
    &&& forall|i: int, j: int|
        0 <= i < j < b.stack.len() ==> (#[trigger] b.stack[i]).0 != (#[trigger] b.stack[j]).0
    &&& forall|i: int, j: int|
        0 <= i < j < running.len() ==> (#[trigger] running[i]) != (#[trigger] running[j])
    &&& forall|i: int, j: int|
        0 <= i < b.stack.len() && 0 <= j < running.len() ==> (#[trigger] b.stack[i]).0 != (
        #[trigger] running[j])
}

/// What a node is as long as the tree grows: its sums are its own and add up, a
/// directory has no bytes of its own, and nothing but a directory has children.
pub open spec fn plain(n: Node) -> bool {
    &&& n.unknown_below == 0
    &&& n.size.balanced()
    &&& n.kind is Dir ==> n.size == Sizes::nothing()
    &&& !(n.kind is Dir) ==> n.child_count == 0
}

/// The books are in order, but for the children of a directory that is just
/// being taken in. `running` are the directories that are being read, `listed`
/// those that were read.
pub open spec fn in_order(b: Book, running: Seq<NodeId>, listed: Set<NodeId>) -> bool {
    &&& b.nodes.len() > 0
    &&& b.nodes[0].parent == NO_NODE
    &&& model::rooted(b.nodes)
    &&& model::named_in(b.nodes, b.names)
    &&& forall|i: int| 0 <= i < b.nodes.len() ==> plain(#[trigger] b.nodes[i])
    &&& forall|k: int| 0 <= k < b.stack.len() ==> open_dir(b, listed, (#[trigger] b.stack[k]).0)
    &&& forall|k: int| 0 <= k < running.len() ==> open_dir(b, listed, #[trigger] running[k])
    &&& open_once(b, running)
    &&& forall|i: int|
        0 <= i < b.nodes.len() && (#[trigger] b.nodes[i]).kind is Dir && b.nodes[i].state is Scanned
            ==> listed.contains(i as NodeId) || waits(b, i) || running.contains(i as NodeId)
    &&& forall|id: NodeId| #[trigger] listed.contains(id) ==> id < b.nodes.len()
    &&& forall|c: u64| #[trigger]
        b.families.contains_key(c) ==> b.families[c].seen <= b.nodes.len()
    &&& b.stats.at_most(b.nodes.len() - b.stack.len() - running.len())
}

/// The blocks of children are as they should be, but for node `d`, whose
/// children are all nodes from `first` on.
pub open spec fn nested_but(nodes: Seq<Node>, d: int, first: int) -> bool {
    &&& forall|i: int|
        #![trigger nodes[i]]
        0 <= i < nodes.len() && nodes[i].child_count > 0 ==> i < nodes[i].first_child
            && nodes[i].first_child + nodes[i].child_count <= nodes.len()
    &&& forall|i: int, j: int|
        #![trigger nodes[i], nodes[j]]
        0 <= i < nodes.len() && i != d && 0 <= j < nodes.len() ==> (model::is_child(nodes, i, j)
            <==> model::in_block(nodes[i], j))
    &&& forall|j: int|
        #![trigger nodes[j]]
        0 <= j < nodes.len() ==> (model::is_child(nodes, d, j) <==> first <= j)
}

/// Node `d` is a directory that is being taken in.
pub open spec fn taking_in(
    b: Book,
    running: Seq<NodeId>,
    listed: Set<NodeId>,
    d: NodeId,
    first: int,
) -> bool {
    &&& in_order(b, running, listed)
    &&& nested_but(b.nodes, d as int, first)
    &&& d < first <= b.nodes.len()
    &&& b.nodes[d as int].kind is Dir
    &&& b.nodes[d as int].child_count == 0
    &&& listed.contains(d)
    &&& b.stats.at_most(b.nodes.len() - b.stack.len() - running.len() - 1)
}

#[verifier::rlimit(50)]
proof fn lemma_entry_keeps(
    b: Book,
    e: Entry,
    d: NodeId,
    path: Seq<u8>,
    plan: Plan,
    running: Seq<NodeId>,
    listed: Set<NodeId>,
    first: int,
)
    requires
        taking_in(b, running, listed, d, first),
        b.nodes.len() < u32::MAX,
    ensures
        taking_in(with_entry(b, e, d, path, plan), running, listed, d, first),
{
    let c = with_entry(b, e, d, path, plan);
    if !is_dots(e.name@) {
        let n = b.nodes.len() as int;
        let child = paths::joined(path, e.name@);
        let p = verdict(e, plan.in_group(child), b.seen);
        assert(forall|i: int| 0 <= i < n ==> c.nodes[i] == b.nodes[i]);
        assert(c.nodes[n] == node_for(e, p, d, b.names.len()));
        assert(forall|k: int| 0 <= k < b.stack.len() ==> c.stack[k] == b.stack[k]);
        assert(model::rooted(c.nodes)) by {
            assert forall|i: int| 0 < i < c.nodes.len() implies (#[trigger] c.nodes[i]).parent
                < i by {
                if i < n {
                    assert(b.nodes[i].parent < i);
                }
            }
            assert forall|i: int| 0 <= i < c.nodes.len() implies (#[trigger] c.nodes[i]).parent
                == NO_NODE || c.nodes[i].parent <= i by {
                if i < n {
                    assert(b.nodes[i].parent == NO_NODE || b.nodes[i].parent <= i);
                }
            }
        }
        assert(model::named_in(c.nodes, c.names)) by {
            assert forall|i: int| 0 <= i < c.nodes.len() implies (#[trigger] c.nodes[i]).name_off
                + c.nodes[i].name_len <= c.names.len() by {
                if i < n {
                    assert(b.nodes[i].name_off + b.nodes[i].name_len <= b.names.len());
                }
            }
        }
        assert forall|i: int| 0 <= i < c.nodes.len() implies plain(#[trigger] c.nodes[i]) by {
            if i < n {
                assert(plain(b.nodes[i]));
            }
        }
        assert forall|k: int| 0 <= k < c.stack.len() implies open_dir(
            c,
            listed,
            (#[trigger] c.stack[k]).0,
        ) by {
            if k < b.stack.len() {
                assert(open_dir(b, listed, b.stack[k].0));
            }
        }
        assert forall|k: int| 0 <= k < running.len() implies open_dir(
            c,
            listed,
            #[trigger] running[k],
        ) by {
            assert(open_dir(b, listed, running[k]));
        }
        assert(open_once(c, running)) by {
            assert forall|i: int, j: int| 0 <= i < j < c.stack.len() implies (
            #[trigger] c.stack[i]).0 != (#[trigger] c.stack[j]).0 by {
                assert(open_dir(b, listed, b.stack[i].0));
                if j < b.stack.len() {
                    assert(b.stack[i].0 != b.stack[j].0);
                }
            }
            assert forall|i: int, j: int|
                0 <= i < c.stack.len() && 0 <= j < running.len() implies (#[trigger] c.stack[i]).0
                != (#[trigger] running[j]) by {
                assert(open_dir(b, listed, running[j]));
                if i < b.stack.len() {
                    assert(b.stack[i].0 != running[j]);
                }
            }
        }
        assert forall|i: int|
            0 <= i < c.nodes.len() && (#[trigger] c.nodes[i]).kind is Dir
                && c.nodes[i].state is Scanned implies listed.contains(i as NodeId) || waits(c, i)
            || running.contains(i as NodeId) by {
            if i < n {
                assert(b.nodes[i].kind is Dir);
                if waits(b, i) {
                    let k = choose|k: int| 0 <= k < b.stack.len() && (#[trigger] b.stack[k]).0 == i;
                    assert(c.stack[k].0 == i);
                }
            } else {
                assert(p.descend);
                assert(c.stack[b.stack.len() as int].0 == i);
            }
        }
        assert(nested_but(c.nodes, d as int, first)) by {
            assert forall|i: int, j: int|
                #![trigger c.nodes[i], c.nodes[j]]
                0 <= i < c.nodes.len() && i != d && 0 <= j < c.nodes.len() implies (
            model::is_child(c.nodes, i, j) <==> model::in_block(c.nodes[i], j)) by {
                if i < n && j < n {
                    assert(model::is_child(b.nodes, i, j) <==> model::in_block(b.nodes[i], j));
                } else if i < n {
                    assert(b.nodes[i].child_count > 0 ==> b.nodes[i].first_child
                        + b.nodes[i].child_count <= n);
                }
            }
            assert forall|j: int|
                #![trigger c.nodes[j]]
                0 <= j < c.nodes.len() implies (model::is_child(c.nodes, d as int, j) <==> first
                <= j) by {
                if j < n {
                    assert(model::is_child(b.nodes, d as int, j) <==> first <= j);
                }
            }
        }
        assert forall|k: u64| #[trigger]
            c.families.contains_key(k) implies c.families[k].seen <= c.nodes.len() by {
            if joins_family(e, b.seen) && k == e.cloneid {
                if b.families.contains_key(k) {
                    assert(b.families[k].seen <= n);
                }
            } else {
                assert(b.families.contains_key(k));
            }
        }
    }
}

pub proof fn lemma_entries_keep(
    b: Book,
    entries: Seq<Entry>,
    n: int,
    d: NodeId,
    path: Seq<u8>,
    plan: Plan,
    running: Seq<NodeId>,
    listed: Set<NodeId>,
    first: int,
)
    requires
        taking_in(b, running, listed, d, first),
        0 <= n <= entries.len(),
        b.nodes.len() + n <= u32::MAX,
    ensures
        taking_in(with_entries(b, entries, n, d, path, plan), running, listed, d, first),
        b.nodes.len() <= with_entries(b, entries, n, d, path, plan).nodes.len() <= b.nodes.len() + n,
    decreases n,
{
    if n > 0 {
        lemma_entries_keep(b, entries, n - 1, d, path, plan, running, listed, first);
        lemma_entry_keeps(
            with_entries(b, entries, n - 1, d, path, plan),
            entries[n - 1],
            d,
            path,
            plan,
            running,
            listed,
            first,
        );
    }
}

/// Entries only add to the books.
pub proof fn lemma_entries_add(
    b: Book,
    entries: Seq<Entry>,
    n: int,
    d: NodeId,
    path: Seq<u8>,
    plan: Plan,
)
    requires
        0 <= n <= entries.len(),
    ensures
        ({
            let c = with_entries(b, entries, n, d, path, plan);
            &&& c.nodes.len() >= b.nodes.len()
            &&& c.nodes.take(b.nodes.len() as int) == b.nodes
            &&& c.names.len() >= b.names.len()
            &&& c.names.take(b.names.len() as int) == b.names
            &&& c.stack.len() >= b.stack.len()
            &&& c.stack.take(b.stack.len() as int) == b.stack
            &&& b.seen.subset_of(c.seen)
        }),
    decreases n,
{
    let c = with_entries(b, entries, n, d, path, plan);
    if n > 0 {
        lemma_entries_add(b, entries, n - 1, d, path, plan);
        let m = with_entries(b, entries, n - 1, d, path, plan);
        assert(c.nodes.take(b.nodes.len() as int) =~= m.nodes.take(b.nodes.len() as int));
        assert(c.names.take(b.names.len() as int) =~= m.names.take(b.names.len() as int));
        assert(c.stack.take(b.stack.len() as int) =~= m.stack.take(b.stack.len() as int));
    } else {
        assert(c.nodes.take(b.nodes.len() as int) =~= b.nodes);
        assert(c.names.take(b.names.len() as int) =~= b.names);
        assert(c.stack.take(b.stack.len() as int) =~= b.stack);
    }
}

/// The books are in order.
pub open spec fn sound(b: Book, running: Seq<NodeId>, listed: Set<NodeId>) -> bool {
    in_order(b, running, listed) && model::nested(b.nodes)
}

pub proof fn lemma_start_taking_in(b: Book, running: Seq<NodeId>, listed: Set<NodeId>, k: int)
    requires
        sound(b, running, listed),
        0 <= k < running.len(),
    ensures
        taking_in(
            b,
            running.remove(k),
            listed.insert(running[k]),
            running[k],
            b.nodes.len() as int,
        ),
{
    let d = running[k];
    let rest = running.remove(k);
    let read = listed.insert(d);
    assert(open_dir(b, listed, d));
    assert forall|j: int| 0 <= j < rest.len() implies open_dir(b, read, #[trigger] rest[j]) && rest[j]
        != d by {
        let i = if j < k {
            j
        } else {
            j + 1
        };
        assert(rest[j] == running[i]);
        assert(open_dir(b, listed, running[i]));
        if i < k {
            assert(running[i] != running[k]);
        } else {
            assert(running[k] != running[i]);
        }
    }
    assert forall|j: int| 0 <= j < b.stack.len() implies open_dir(b, read, (#[trigger] b.stack[j]).0) by {
        assert(open_dir(b, listed, b.stack[j].0));
        assert(b.stack[j].0 != running[k]);
    }
    assert(open_once(b, rest)) by {
        assert forall|i: int, j: int| 0 <= i < j < rest.len() implies (#[trigger] rest[i]) != (
        #[trigger] rest[j]) by {
            let i2 = if i < k {
                i
            } else {
                i + 1
            };
            let j2 = if j < k {
                j
            } else {
                j + 1
            };
            assert(running[i2] != running[j2]);
        }
        assert forall|i: int, j: int|
            0 <= i < b.stack.len() && 0 <= j < rest.len() implies (#[trigger] b.stack[i]).0 != (
        #[trigger] rest[j]) by {
            let j2 = if j < k {
                j
            } else {
                j + 1
            };
            assert(b.stack[i].0 != running[j2]);
        }
    }
    assert forall|i: int|
        0 <= i < b.nodes.len() && (#[trigger] b.nodes[i]).kind is Dir
            && b.nodes[i].state is Scanned implies read.contains(i as NodeId) || waits(b, i)
        || rest.contains(i as NodeId) by {
        if running.contains(i as NodeId) && i != d {
            let j = choose|j: int| 0 <= j < running.len() && running[j] == i as NodeId;
            if j < k {
                assert(rest[j] == i as NodeId);
            } else {
                assert(rest[j - 1] == i as NodeId);
            }
        }
    }
    assert(nested_but(b.nodes, d as int, b.nodes.len() as int)) by {
        assert forall|j: int|
            #![trigger b.nodes[j]]
            0 <= j < b.nodes.len() implies !model::is_child(b.nodes, d as int, j) by {
            assert(b.nodes[d as int].child_count == 0);
            assert(model::is_child(b.nodes, d as int, j) <==> model::in_block(
                b.nodes[d as int],
                j,
            ));
        }
    }
}

proof fn lemma_listing_keeps(
    b: Book,
    entries: Seq<Entry>,
    broken: Option<i32>,
    d: NodeId,
    path: Seq<u8>,
    plan: Plan,
    running: Seq<NodeId>,
    listed: Set<NodeId>,
)
    requires
        taking_in(b, running, listed, d, b.nodes.len() as int),
        b.nodes.len() + entries.len() <= u32::MAX,
    ensures
        sound(with_listing(b, entries, broken, d, path, plan), running, listed),
{
    let first = b.nodes.len() as int;
    let c = with_entries(b, entries, entries.len() as int, d, path, plan);
    let a = with_listing(b, entries, broken, d, path, plan);
    lemma_entries_keep(b, entries, entries.len() as int, d, path, plan, running, listed, first);
    assert(forall|i: int| 0 <= i < c.nodes.len() && i != d ==> a.nodes[i] == c.nodes[i]);
    assert forall|i: int| 0 <= i < a.nodes.len() implies (#[trigger] a.nodes[i]).parent
        == c.nodes[i].parent && a.nodes[i].name_off == c.nodes[i].name_off && a.nodes[i].name_len
        == c.nodes[i].name_len && plain(a.nodes[i]) by {
        assert(plain(c.nodes[i]));
    }
    assert(model::rooted(a.nodes));
    assert(model::named_in(a.nodes, a.names));
    assert forall|k: int| 0 <= k < a.stack.len() implies open_dir(
        a,
        listed,
        (#[trigger] a.stack[k]).0,
    ) by {
        assert(open_dir(c, listed, c.stack[k].0));
    }
    assert forall|k: int| 0 <= k < running.len() implies open_dir(a, listed, #[trigger] running[k]) by {
        assert(open_dir(c, listed, running[k]));
    }
    assert(open_once(a, running));
    assert forall|i: int|
        0 <= i < a.nodes.len() && (#[trigger] a.nodes[i]).kind is Dir
            && a.nodes[i].state is Scanned implies listed.contains(i as NodeId) || waits(a, i)
        || running.contains(i as NodeId) by {
        if i != d {
            assert(c.nodes[i].kind is Dir);
            if waits(c, i) {
                let k = choose|k: int| 0 <= k < c.stack.len() && (#[trigger] c.stack[k]).0 == i;
                assert(a.stack[k].0 == i);
            }
        }
    }
    assert(model::nested(a.nodes)) by {
        assert forall|i: int, j: int|
            #![trigger a.nodes[i], a.nodes[j]]
            0 <= i < a.nodes.len() && 0 <= j < a.nodes.len() implies (model::is_child(a.nodes, i, j)
            <==> model::in_block(a.nodes[i], j)) by {
            assert(a.nodes[j].parent == c.nodes[j].parent);
            if i == d {
                assert(model::is_child(c.nodes, d as int, j) <==> first <= j);
            } else {
                assert(model::is_child(c.nodes, i, j) <==> model::in_block(c.nodes[i], j));
            }
        }
        assert forall|i: int|
            #![trigger a.nodes[i]]
            0 <= i < a.nodes.len() && a.nodes[i].child_count > 0 implies i < a.nodes[i].first_child
            && a.nodes[i].first_child + a.nodes[i].child_count <= a.nodes.len() by {
            if i != d {
                assert(c.nodes[i].child_count > 0);
            }
        }
    }
}

proof fn lemma_entries_account(
    b: Book,
    entries: Seq<Entry>,
    n: int,
    d: NodeId,
    path: Seq<u8>,
    plan: Plan,
    running: Seq<NodeId>,
    listed: Set<NodeId>,
    first: int,
)
    requires
        accounted(b),
        taking_in(b, running, listed, d, first),
        0 <= n <= entries.len(),
        b.nodes.len() + n <= u32::MAX,
    ensures
        accounted(with_entries(b, entries, n, d, path, plan)),
    decreases n,
{
    if n > 0 {
        lemma_entries_account(b, entries, n - 1, d, path, plan, running, listed, first);
        lemma_entries_keep(b, entries, n - 1, d, path, plan, running, listed, first);
        lemma_entry_accounts(
            with_entries(b, entries, n - 1, d, path, plan),
            entries[n - 1],
            d,
            path,
            plan,
        );
    }
}

proof fn lemma_listing_accounts(
    b: Book,
    entries: Seq<Entry>,
    broken: Option<i32>,
    d: NodeId,
    path: Seq<u8>,
    plan: Plan,
    running: Seq<NodeId>,
    listed: Set<NodeId>,
)
    requires
        accounted(b),
        taking_in(b, running, listed, d, b.nodes.len() as int),
        b.nodes.len() + entries.len() <= u32::MAX,
    ensures
        accounted(with_listing(b, entries, broken, d, path, plan)),
{
    let n = entries.len() as int;
    let first = b.nodes.len() as int;
    let c = with_entries(b, entries, n, d, path, plan);
    let a = with_listing(b, entries, broken, d, path, plan);
    lemma_entries_account(b, entries, n, d, path, plan, running, listed, first);
    lemma_entries_keep(b, entries, n, d, path, plan, running, listed, first);
    lemma_kinds_account(c, a);
}

/// The families and their members go by the kinds and the sizes of the nodes
/// alone.
proof fn lemma_kinds_account(b: Book, a: Book)
    requires
        accounted(b),
        a.clone_of == b.clone_of,
        a.families == b.families,
        a.nodes.len() == b.nodes.len(),
        forall|i: int|
            0 <= i < b.nodes.len() ==> (#[trigger] a.nodes[i]).kind == b.nodes[i].kind
                && a.nodes[i].size == b.nodes[i].size,
    ensures
        accounted(a),
{
    assert forall|c: u64| #[trigger] a.families.contains_key(c) implies exists|x: NodeId|
        speaks_for(a, c, x) by {
        assert(b.families.contains_key(c));
        let x = choose|x: NodeId| speaks_for(b, c, x);
        assert(a.nodes[x as int].kind == b.nodes[x as int].kind);
        assert(speaks_for(a, c, x));
    }
    assert forall|id: NodeId| #[trigger] a.clone_of.contains_key(id) implies {
        &&& id < a.nodes.len()
        &&& a.nodes[id as int].kind is File
        &&& a.clone_of[id] != 0
        &&& a.families.contains_key(a.clone_of[id])
    } by {
        assert(b.clone_of.contains_key(id));
        assert(a.nodes[id as int].kind == b.nodes[id as int].kind);
    }
    assert forall|c: u64| #[trigger] a.families.contains_key(c) && c != 0 implies a.families[c].seen
        == members(a.clone_of, c).len() by {
        assert(b.families.contains_key(c));
    }
}

/// The books once a directory could not be entered.
pub open spec fn with_mark(b: Book, d: NodeId, state: State, detail: i32) -> Book {
    Book {
        nodes: b.nodes.update(d as int, Node { state, detail, ..b.nodes[d as int] }),
        ..b
    }
}

/// The books once a directory could not be read because of an error.
pub open spec fn with_failure(b: Book, d: NodeId, errno: i32) -> Book {
    let state = scan::refusal_state(errno as int);
    Book {
        stats: Stats {
            denied_tcc: plus_if(b.stats.denied_tcc, state is DeniedTcc),
            denied_perm: plus_if(b.stats.denied_perm, state is DeniedPerm),
            errors: plus_if(b.stats.errors, state is Error),
            ..b.stats
        },
        ..with_mark(b, d, state, errno)
    }
}

proof fn lemma_mark_keeps(
    b: Book,
    d: NodeId,
    state: State,
    detail: i32,
    running: Seq<NodeId>,
    listed: Set<NodeId>,
)
    requires
        taking_in(b, running, listed.insert(d), d, b.nodes.len() as int),
        !listed.contains(d),
        !(state is Scanned),
    ensures
        sound(with_mark(b, d, state, detail), running, listed),
{
    let a = with_mark(b, d, state, detail);
    let read = listed.insert(d);
    assert forall|id: NodeId| #[trigger] listed.contains(id) implies id < a.nodes.len() by {
        assert(read.contains(id));
    }
    assert(forall|i: int| 0 <= i < b.nodes.len() && i != d ==> a.nodes[i] == b.nodes[i]);
    assert forall|i: int| 0 <= i < a.nodes.len() implies (#[trigger] a.nodes[i]).parent
        == b.nodes[i].parent && a.nodes[i].name_off == b.nodes[i].name_off && a.nodes[i].name_len
        == b.nodes[i].name_len && a.nodes[i].child_count == b.nodes[i].child_count
        && a.nodes[i].first_child == b.nodes[i].first_child && plain(a.nodes[i]) by {
        assert(plain(b.nodes[i]));
    }
    assert(model::rooted(a.nodes));
    assert(model::named_in(a.nodes, a.names));
    assert forall|k: int| 0 <= k < a.stack.len() implies open_dir(
        a,
        listed,
        (#[trigger] a.stack[k]).0,
    ) by {
        assert(open_dir(b, read, b.stack[k].0));
    }
    assert forall|k: int| 0 <= k < running.len() implies open_dir(a, listed, #[trigger] running[k]) by {
        assert(open_dir(b, read, running[k]));
    }
    assert(open_once(a, running));
    assert forall|i: int|
        0 <= i < a.nodes.len() && (#[trigger] a.nodes[i]).kind is Dir
            && a.nodes[i].state is Scanned implies listed.contains(i as NodeId) || waits(a, i)
        || running.contains(i as NodeId) by {
        assert(i != d);
        assert(b.nodes[i].kind is Dir);
        if waits(b, i) {
            let k = choose|k: int| 0 <= k < b.stack.len() && (#[trigger] b.stack[k]).0 == i;
            assert(a.stack[k].0 == i);
        }
    }
    assert(model::nested(a.nodes)) by {
        assert forall|i: int, j: int|
            #![trigger a.nodes[i], a.nodes[j]]
            0 <= i < a.nodes.len() && 0 <= j < a.nodes.len() implies (model::is_child(a.nodes, i, j)
            <==> model::in_block(a.nodes[i], j)) by {
            assert(a.nodes[j].parent == b.nodes[j].parent);
            if i == d {
                assert(model::is_child(b.nodes, d as int, j) <==> b.nodes.len() <= j);
            } else {
                assert(model::is_child(b.nodes, i, j) <==> model::in_block(b.nodes[i], j));
            }
        }
        assert forall|i: int|
            #![trigger a.nodes[i]]
            0 <= i < a.nodes.len() && a.nodes[i].child_count > 0 implies i < a.nodes[i].first_child
            && a.nodes[i].first_child + a.nodes[i].child_count <= a.nodes.len() by {
            assert(b.nodes[i].child_count > 0);
        }
    }
}

pub open spec fn tasks_of(tasks: Seq<Task>) -> Seq<(NodeId, Seq<u8>)> {
    tasks.map_values(|t: Task| (t.id, t.path@))
}

/// What a thread that has nothing to do is to do.
pub enum Step {
    /// Read this directory.
    Run(Task),
    /// Wait: another thread may still find more.
    Wait,
    /// Stop: the walk is over.
    Quit,
}

/// A walk under way.
pub struct Walk {
    pub plan: Plan,
    pub tree: Tree,
    pub dedupe: Dedupe,
    pub families: Families,
    pub clone_of: HashMap<NodeId, u64>,
    pub stats: Stats,
    /// The bytes allocated to what was met, modulo the width of the count.
    pub physical: u64,
    /// The directories to be read. The last one is next.
    pub stack: Vec<Task>,
    /// The directories that are being read.
    pub running: Vec<NodeId>,
    /// The walk is over.
    pub quit: bool,
    /// The directories that were read.
    pub listed: Ghost<Set<NodeId>>,
    /// The directories that were let in, each with the device that it was found
    /// on, where that could be found out.
    pub entered: Ghost<Map<NodeId, Option<i32>>>,
}

/// The books of a walk from `root` before anything is read.
pub open spec fn first_book(root: Seq<u8>) -> Book {
    Book {
        nodes: seq![
            Node {
                name_off: 0,
                name_len: (root.len() % 0x1_0000) as u16,
                kind: Kind::Dir,
                state: State::Scanned,
                detail: 0,
                parent: NO_NODE,
                first_child: NO_NODE,
                child_count: 0,
                unknown_below: 0,
                flags: 0,
                ext_flags: 0,
                hardlink_alias: false,
                mtime: 0,
                size: Sizes::nothing(),
            },
        ],
        names: root,
        seen: Set::empty(),
        families: Map::empty(),
        clone_of: Map::empty(),
        stats: Stats::none(),
        physical: 0,
        stack: seq![(ROOT, root)],
    }
}

/// The ids but for one.
pub open spec fn without(running: Seq<NodeId>, id: NodeId) -> Seq<NodeId> {
    running.remove(running.index_of(id))
}

impl Walk {
    pub open spec fn book(&self) -> Book {
        Book {
            nodes: self.tree.nodes@,
            names: self.tree.names@,
            seen: self.dedupe@,
            families: self.families@,
            clone_of: self.clone_of@,
            stats: self.stats,
            physical: self.physical,
            stack: tasks_of(self.stack@),
        }
    }

    pub open spec fn wf(&self) -> bool {
        &&& sound(self.book(), self.running@, self.listed@)
        &&& accounted(self.book())
        &&& counted(self.book())
        &&& self.listed@.finite()
        &&& self.listed@.len() == self.stats.dirs
        &&& forall|id: NodeId| #[trigger]
            self.entered@.contains_key(id) ==> self.plan.lets_in(self.entered@[id])
        &&& forall|id: NodeId| #[trigger]
            self.listed@.contains(id) ==> self.entered@.contains_key(id)
    }

    /// A walk from `root`.
    pub fn new(plan: Plan, root: &[u8]) -> (r: Walk)
        ensures
            r.wf(),
            r.book() == first_book(root@),
            r.plan == plan,
            r.running@.len() == 0,
            r.listed@ == Set::<NodeId>::empty(),
            r.entered@ == Map::<NodeId, Option<i32>>::empty(),
            !r.quit,
    {
        let mut tree = Tree::with_capacity(1048576);
        tree.push(root, NO_NODE, Kind::Dir, State::Scanned);
        let mut stack: Vec<Task> = Vec::new();
        stack.push(Task { id: ROOT, path: vstd::slice::slice_to_vec(root) });
        let r = Walk {
            plan,
            tree,
            dedupe: Dedupe::new(),
            families: Families::new(),
            clone_of: HashMap::new(),
            stats: Stats::default(),
            physical: 0,
            stack,
            running: Vec::new(),
            quit: false,
            listed: Ghost(Set::empty()),
            entered: Ghost(Map::empty()),
        };
        proof {
            assert(r.book() =~= first_book(root@));
            assert(r.book().stack[0].0 == 0);
            assert(waits(r.book(), 0));
            reveal_with_fuel(count_kind, 2);
            reveal_with_fuel(count_aliases, 2);
        }
        r
    }

    /// What a thread that has nothing to do is to do.
    pub fn next(&mut self, cancel: bool) -> (r: Step)
        requires
            old(self).wf(),
        ensures
            final(self).wf(),
            final(self).plan == old(self).plan,
            final(self).listed == old(self).listed,
            final(self).entered == old(self).entered,
            cancel ==> r is Quit,
            !cancel && old(self).stack@.len() > 0 ==> {
                &&& r is Run
                &&& (r->Run_0.id, r->Run_0.path@) == old(self).book().stack.last()
                &&& final(self).book() == (Book {
                    stack: old(self).book().stack.drop_last(),
                    ..old(self).book()
                })
                &&& final(self).running@ == old(self).running@.push(r->Run_0.id)
            },
            !cancel && old(self).stack@.len() == 0 ==> {
                if old(self).running@.len() == 0 {
                    r is Quit
                } else {
                    r is Wait
                }
            },
            !(r is Run) ==> final(self).book() == old(self).book() && final(self).running@ == old(
                self,
            ).running@,
            final(self).quit == (old(self).quit || r is Quit),
    {
        if cancel {
            self.quit = true;
            return Step::Quit;
        }
        let ghost b = self.book();
        let ghost running = self.running@;
        match self.stack.pop() {
            Some(t) => {
                self.running.push(t.id);
                proof {
                    let c = self.book();
                    assert(c.stack =~= b.stack.drop_last());
                    assert((t.id, t.path@) == b.stack.last());
                    lemma_pop_keeps(b, running, self.listed@);
                    lemma_kinds_account(b, c);
                }
                Step::Run(t)
            },
            None => {
                if self.running.len() == 0 {
                    self.quit = true;
                    Step::Quit
                } else {
                    Step::Wait
                }
            },
        }
    }

    /// Whether the walk is over.
    pub fn is_over(&self) -> (r: bool)
        ensures
            r == self.quit,
    {
        self.quit
    }

    /// How far the walk has come.
    pub fn progress(&self) -> (r: Progress)
        ensures
            r.dirs == self.stats.dirs,
            r.files == self.stats.files,
            r.physical == self.physical,
    {
        Progress { dirs: self.stats.dirs, files: self.stats.files, physical: self.physical }
    }

    /// Whether there are ids left for so many entries.
    pub fn has_room(&self, entries: usize) -> (r: bool)
        ensures
            r == (self.tree.nodes@.len() + entries <= u32::MAX),
    {
        let n: usize = self.tree.nodes.len();
        n as u64 <= 0xffff_ffff && entries as u64 <= 0xffff_ffff - n as u64
    }

    /// Takes a directory off the list of those that are being read.
    fn leave(&mut self, id: NodeId)
        requires
            old(self).wf(),
            old(self).running@.contains(id),
        ensures
            final(self).running@ == without(old(self).running@, id),
            final(self).book() == old(self).book(),
            final(self).plan == old(self).plan,
            final(self).listed == old(self).listed,
            final(self).entered == old(self).entered,
            final(self).quit == old(self).quit,
            taking_in(
                final(self).book(),
                final(self).running@,
                final(self).listed@.insert(id),
                id,
                final(self).tree.nodes@.len() as int,
            ),
            !final(self).listed@.contains(id),
    {
        let ghost running = self.running@;
        let ghost b = self.book();
        let mut k: usize = 0;
        while self.running[k] != id
            invariant
                self.running@ == running,
                running.contains(id),
                k < self.running.len(),
                forall|j: int| 0 <= j < k ==> running[j] != id,
            decreases running.len() - k,
        {
            assert(exists|j: int| k < j < running.len() && running[j] == id) by {
                let j = choose|j: int| 0 <= j < running.len() && running[j] == id;
                assert(j > k);
            }
            k = k + 1;
        }
        proof {
            let j = running.index_of(id);
            assert(0 <= j < running.len() && running[j] == id);
            if j != k {
                if j < k {
                    assert(running[j] != running[k as int]);
                } else {
                    assert(running[k as int] != running[j]);
                }
            }
            lemma_start_taking_in(b, running, self.listed@, k as int);
            assert(open_dir(b, self.listed@, running[k as int]));
        }
        self.running.remove(k);
        assert(self.running@ =~= running.remove(k as int));
    }

    /// Marks a directory that could not be read because of an error.
    pub fn mark_failed(&mut self, task: Task, errno: i32)
        requires
            old(self).wf(),
            old(self).running@.contains(task.id),
        ensures
            final(self).wf(),
            final(self).book() == with_failure(old(self).book(), task.id, errno),
            final(self).running@ == without(old(self).running@, task.id),
            final(self).plan == old(self).plan,
            final(self).listed == old(self).listed,
            final(self).entered == old(self).entered,
            final(self).quit == old(self).quit,
    {
        let id: NodeId = task.id;
        self.leave(id);
        let ghost b = self.book();
        let state = scan::err_state(errno);
        proof {
            lemma_mark_keeps(b, id, state, errno, self.running@, self.listed@);
            lemma_kinds_account(b, with_failure(b, id, errno));
            lemma_count_local(b.nodes, with_failure(b, id, errno).nodes, b.nodes.len() as int);
        }
        self.set_mark(id, state, errno);
        match state {
            State::DeniedTcc => {
                self.stats.denied_tcc = self.stats.denied_tcc + 1;
            },
            State::DeniedPerm => {
                self.stats.denied_perm = self.stats.denied_perm + 1;
            },
            _ => {
                self.stats.errors = self.stats.errors + 1;
            },
        }
        proof {
            let a = with_mark(b, id, state, errno);
            assert(self.book() == (Book { stats: self.stats, ..a }));
            lemma_stats_keep(a, self.stats, self.running@, self.listed@);
        }
    }

    /// Marks a directory that is not entered because of its device.
    pub fn mark_skipped(&mut self, task: Task, reason: i32)
        requires
            old(self).wf(),
            old(self).running@.contains(task.id),
        ensures
            final(self).wf(),
            final(self).book() == with_mark(old(self).book(), task.id, State::Skipped, reason),
            final(self).running@ == without(old(self).running@, task.id),
            final(self).plan == old(self).plan,
            final(self).listed == old(self).listed,
            final(self).entered == old(self).entered,
            final(self).quit == old(self).quit,
    {
        let id: NodeId = task.id;
        self.leave(id);
        proof {
            lemma_mark_keeps(
                self.book(),
                id,
                State::Skipped,
                reason,
                self.running@,
                self.listed@,
            );
            lemma_kinds_account(
                self.book(),
                with_mark(self.book(), id, State::Skipped, reason),
            );
            lemma_count_local(
                self.book().nodes,
                with_mark(self.book(), id, State::Skipped, reason).nodes,
                self.book().nodes.len() as int,
            );
        }
        self.set_mark(id, State::Skipped, reason);
    }

    /// Decides what becomes of an entry that has no error, and notes what has to
    /// be known of it later on.
    fn classify(&mut self, e: &Entry, parent: &[u8]) -> (r: Pending)
        requires
            e.error == 0,
            in_order(old(self).book(), old(self).running@, old(self).listed@),
            old(self).tree.nodes@.len() < u32::MAX,
        ensures
            r == verdict(
                *e,
                old(self).plan.in_group(paths::joined(parent@, e.name@)),
                old(self).book().seen,
            ),
            final(self).book() == (Book {
                seen: seen_with(old(self).book().seen, *e),
                families: families_with(old(self).book().families, *e, old(self).book().seen),
                stats: stats_with(old(self).book().stats, *e, old(self).book().seen),
                ..old(self).book()
            }),
            final(self).running == old(self).running,
            final(self).plan == old(self).plan,
            final(self).listed == old(self).listed,
            final(self).entered == old(self).entered,
            final(self).quit == old(self).quit,
    {
        let ext_flags: u8 = (e.ext_flags & 0xff) as u8;
        if e.is_dir() {
            let in_group = self.plan.is_group_mount(paths::join(parent, e.name.as_slice()).as_slice());
            let fresh = self.dedupe.claim(e.realfsid, e.fileid);
            let descend = fresh && !in_group;
            return Pending {
                kind: Kind::Dir,
                state: if descend {
                    State::Scanned
                } else {
                    State::Skipped
                },
                detail: 0,
                flags: e.flags,
                ext_flags,
                mtime: e.mtime,
                size: Sizes::default(),
                hardlink_alias: false,
                descend,
                cloneid: 0,
            };
        }
        if !e.is_file() {
            let symlink = e.is_symlink();
            if symlink {
                self.stats.symlinks = self.stats.symlinks + 1;
            }
            return Pending {
                kind: if symlink {
                    Kind::Symlink
                } else {
                    Kind::Other
                },
                state: State::Scanned,
                detail: 0,
                flags: e.flags,
                ext_flags,
                mtime: e.mtime,
                size: Sizes::default(),
                hardlink_alias: false,
                descend: false,
                cloneid: 0,
            };
        }
        self.stats.files = self.stats.files + 1;
        if e.is_dataless() {
            self.stats.dataless = self.stats.dataless + 1;
        }
        if e.is_compressed() {
            self.stats.compressed = self.stats.compressed + 1;
        }
        if e.is_sparse() {
            self.stats.sparse = self.stats.sparse + 1;
        }
        let alias = if e.linkcount > 1 {
            !self.dedupe.claim(e.realfsid, e.fileid)
        } else {
            false
        };
        if alias {
            self.stats.hardlink_aliases = self.stats.hardlink_aliases + 1;
        }
        let size = if alias {
            Sizes::default()
        } else {
            scan::sizes_of(e)
        };
        let member = !alias && e.shares_with_clones();
        if member {
            self.stats.clone_members = self.stats.clone_members + 1;
            self.families.record(e.cloneid, e.clone_refcnt, size.shared_clones);
        }
        Pending {
            kind: Kind::File,
            state: State::Scanned,
            detail: 0,
            flags: e.flags,
            ext_flags,
            mtime: e.mtime,
            size,
            hardlink_alias: alias,
            descend: false,
            cloneid: if member {
                e.cloneid
            } else {
                0
            },
        }
    }

    /// Takes in one entry of a directory.
    fn take_in(&mut self, e: &Entry, dir: NodeId, path: &[u8])
        requires
            in_order(old(self).book(), old(self).running@, old(self).listed@),
            old(self).tree.nodes@.len() < u32::MAX,
        ensures
            final(self).book() == with_entry(old(self).book(), *e, dir, path@, old(self).plan),
            final(self).running == old(self).running,
            final(self).plan == old(self).plan,
            final(self).listed == old(self).listed,
            final(self).entered == old(self).entered,
            final(self).quit == old(self).quit,
    {
        if names_dots(e.name.as_slice()) {
            return;
        }
        let ghost b = self.book();
        let p = if e.error != 0 {
            self.stats.errors = self.stats.errors + 1;
            Pending {
                kind: Kind::Other,
                state: scan::err_state(e.error as i32),
                detail: e.error as i32,
                flags: 0,
                ext_flags: 0,
                mtime: 0,
                size: Sizes::default(),
                hardlink_alias: false,
                descend: false,
                cloneid: 0,
            }
        } else {
            self.classify(e, path)
        };
        let ghost child = paths::joined(path@, e.name@);
        assert(p == verdict(*e, self.plan.in_group(child), b.seen));
        let id: NodeId = self.tree.push(e.name.as_slice(), dir, p.kind, p.state);
        let n = self.tree.nodes[id as usize];
        self.tree.nodes[id as usize] = Node {
            detail: p.detail,
            flags: p.flags,
            ext_flags: p.ext_flags,
            mtime: p.mtime,
            size: p.size,
            hardlink_alias: p.hardlink_alias,
            ..n
        };
        if p.cloneid != 0 {
            self.clone_of.insert(id, p.cloneid);
        }
        self.physical = self.physical.wrapping_add(p.size.physical);
        if p.descend {
            let ghost before = self.stack@;
            self.stack.push(Task { id, path: paths::join(path, e.name.as_slice()) });
            assert(tasks_of(self.stack@) =~= tasks_of(before).push((id, child)));
        }
        proof {
            let a = with_entry(b, *e, dir, path@, self.plan);
            assert(self.book().nodes =~= a.nodes);
            assert(self.book().stack =~= a.stack);
            assert(self.book() == a);
        }
    }

    /// Decides, once a directory is open and its device is known, as far as it can
    /// be, whether it is read. Where the plan keeps out of the device, the
    /// directory is marked with the reason; else the task is handed back, to be
    /// read.
    pub fn enter(&mut self, task: Task, dev: Option<i32>) -> (r: Option<Task>)
        requires
            old(self).wf(),
            old(self).running@.contains(task.id),
        ensures
            final(self).wf(),
            final(self).plan == old(self).plan,
            final(self).listed == old(self).listed,
            final(self).quit == old(self).quit,
            r is Some <==> old(self).plan.lets_in(dev),
            r matches Some(t) ==> {
                &&& t == task
                &&& final(self).book() == old(self).book()
                &&& final(self).running@ == old(self).running@
                &&& final(self).entered@ == old(self).entered@.insert(task.id, dev)
            },
            r is None ==> {
                &&& final(self).book() == with_mark(
                    old(self).book(),
                    task.id,
                    State::Skipped,
                    plan::reason_from(old(self).plan.refused@, dev->0, 0) as i32,
                )
                &&& final(self).running@ == without(old(self).running@, task.id)
                &&& final(self).entered == old(self).entered
            },
    {
        match self.plan.refuses(dev) {
            Some(reason) => {
                self.mark_skipped(task, reason);
                None
            },
            None => {
                self.entered = Ghost(self.entered@.insert(task.id, dev));
                Some(task)
            },
        }
    }

    /// Takes in a directory that was entered and read: its entries become its children, side
    /// by side, and those of them that are to be read in turn wait. If the
    /// listing broke off, `broken` is the error number, or zero where there is
    /// none.
    pub fn expand(&mut self, task: Task, entries: &Vec<Entry>, broken: Option<i32>)
        requires
            old(self).wf(),
            old(self).running@.contains(task.id),
            old(self).entered@.contains_key(task.id),
            old(self).tree.nodes@.len() + entries@.len() <= u32::MAX,
        ensures
            final(self).wf(),
            final(self).book() == with_listing(
                old(self).book(),
                entries@,
                broken,
                task.id,
                task.path@,
                old(self).plan,
            ),
            final(self).running@ == without(old(self).running@, task.id),
            final(self).listed@ == old(self).listed@.insert(task.id),
            final(self).entered == old(self).entered,
            final(self).plan == old(self).plan,
            final(self).quit == old(self).quit,
    {
        let dir: NodeId = task.id;
        self.leave(dir);
        self.listed = Ghost(self.listed@.insert(dir));
        let ghost b = self.book();
        let ghost listed = self.listed@;
        let ghost running = self.running@;
        let ghost plan = self.plan;
        let first: usize = self.tree.nodes.len();
        let mut i: usize = 0;
        while i < entries.len()
            invariant
                taking_in(b, running, listed, dir, first as int),
                first == b.nodes.len(),
                b.nodes.len() + entries@.len() <= u32::MAX,
                i <= entries@.len(),
                self.book() == with_entries(b, entries@, i as int, dir, task.path@, plan),
                self.plan == plan,
                self.running@ == running,
                self.listed@ == listed,
                self.entered == old(self).entered,
                self.quit == old(self).quit,
            decreases entries@.len() - i,
        {
            proof {
                lemma_entries_keep(
                    b,
                    entries@,
                    i as int,
                    dir,
                    task.path@,
                    plan,
                    running,
                    listed,
                    first as int,
                );
            }
            self.take_in(&entries[i], dir, task.path.as_slice());
            i = i + 1;
        }
        proof {
            lemma_entries_keep(
                b,
                entries@,
                i as int,
                dir,
                task.path@,
                plan,
                running,
                listed,
                first as int,
            );
            lemma_listing_accounts(b, entries@, broken, dir, task.path@, plan, running, listed);
            lemma_entries_count(
                b,
                entries@,
                i as int,
                dir,
                task.path@,
                plan,
                running,
                listed,
                first as int,
            );
            lemma_count_local(
                self.tree.nodes@,
                with_listing(b, entries@, broken, dir, task.path@, plan).nodes,
                self.tree.nodes@.len() as int,
            );
            lemma_listing_keeps(b, entries@, broken, dir, task.path@, plan, running, listed);
        }
        let end: usize = self.tree.nodes.len();
        let mut n = self.tree.nodes[dir as usize];
        n.first_child = if first == end {
            NO_NODE
        } else {
            first as NodeId
        };
        n.child_count = (end - first) as u32;
        if let Some(errno) = broken {
            n.set_state(scan::err_state(errno));
            n.detail = errno;
            self.stats.errors = self.stats.errors + 1;
        }
        self.tree.nodes[dir as usize] = n;
        self.stats.dirs = self.stats.dirs + 1;
        assert(self.book() =~= with_listing(b, entries@, broken, dir, task.path@, plan));
    }

    /// Ends the walk: the sums go up the tree, and what was found is handed out.
    /// Every sum has to fit, which [`Tree::rollup_fits`] tells.
    pub fn finish(
        self,
        root_path: Vec<u8>,
        policies: Policies,
        volume: Option<(u64, u64)>,
        elapsed_nanos: u128,
        cancelled: bool,
    ) -> (r: ScanResult)
        requires
            self.wf(),
            forall|i: int|
                0 <= i < self.tree.nodes@.len() ==> #[trigger] model::total(
                    self.tree.nodes@,
                    i,
                ).fits(),
        ensures
            r.wf(),
            model::rolled(self.tree.nodes@, r.tree.nodes@),
            r.tree.names@ == self.tree.names@,
            r.stats == (Stats {
                skipped_mounts: self.plan.skipped@.len() as u64,
                elapsed_nanos,
                ..self.stats
            }),
            r.root_path == root_path,
            r.skipped == self.plan.skipped,
            r.families@ == self.families@,
            r.clone_of@ == self.clone_of@,
            r.policies == policies,
            r.volume_used == (match volume {
                Some(v) => v.0,
                None => 0,
            }),
            r.volume_total == (match volume {
                Some(v) => v.1,
                None => 0,
            }),
            r.root_is_volume_root == self.plan.root_is_volume_root,
            r.cancelled == cancelled,
    {
        let ghost before = self.tree.nodes@;
        let mut tree = self.tree;
        tree.rollup();
        proof {
            lemma_rolled_keeps(before, tree.nodes@, tree.names@);
        }
        tree.shrink();
        let mut stats = self.stats;
        stats.skipped_mounts = self.plan.skipped.len() as u64;
        stats.elapsed_nanos = elapsed_nanos;
        let (volume_used, volume_total): (u64, u64) = match volume {
            Some(v) => v,
            None => (0, 0),
        };
        ScanResult {
            tree,
            stats,
            root_path,
            skipped: self.plan.skipped,
            families: self.families.drain(),
            clone_of: self.clone_of,
            policies,
            volume_used,
            volume_total,
            root_is_volume_root: self.plan.root_is_volume_root,
            cancelled,
        }
    }

    fn set_mark(&mut self, id: NodeId, state: State, detail: i32)
        requires
            id < old(self).tree.nodes@.len(),
        ensures
            final(self).book() == with_mark(old(self).book(), id, state, detail),
            final(self).running == old(self).running,
            final(self).plan == old(self).plan,
            final(self).listed == old(self).listed,
            final(self).entered == old(self).entered,
            final(self).quit == old(self).quit,
    {
        let mut n = self.tree.nodes[id as usize];
        n.set_state(state);
        n.detail = detail;
        self.tree.nodes[id as usize] = n;
    }
}

/// A rollup leaves the shape of the tree and the names alone.
pub proof fn lemma_rolled_keeps(before: Seq<Node>, after: Seq<Node>, names: Seq<u8>)
    requires
        model::rolled(before, after),
    ensures
        model::rooted(before) ==> model::rooted(after),
        model::nested(before) ==> model::nested(after),
        model::named_in(before, names) ==> model::named_in(after, names),
{
    assert forall|i: int| 0 <= i < before.len() implies (#[trigger] after[i]).parent
        == before[i].parent && after[i].name_off == before[i].name_off && after[i].name_len
        == before[i].name_len && after[i].child_count == before[i].child_count
        && after[i].first_child == before[i].first_child by {
        assert(after[i].same_but_sums(before[i]));
    }
    if model::nested(before) {
        assert forall|i: int, j: int|
            #![trigger after[i], after[j]]
            0 <= i < after.len() && 0 <= j < after.len() implies (model::is_child(after, i, j)
            <==> model::in_block(after[i], j)) by {
            assert(model::is_child(before, i, j) <==> model::in_block(before[i], j));
        }
    }
}

fn names_dots(name: &[u8]) -> (r: bool)
    ensures
        r == is_dots(name@),
{
    let r = name.len() == 0 || (name.len() == 1 && name[0] == paths::DOT) || (name.len() == 2
        && name[0] == paths::DOT && name[1] == paths::DOT);
    proof {
        if name@.len() == 1 && name@[0] == paths::DOT {
            assert(name@ =~= seq![paths::DOT]);
        }
        if name@.len() == 2 && name@[0] == paths::DOT && name@[1] == paths::DOT {
            assert(name@ =~= seq![paths::DOT, paths::DOT]);
        }
    }
    r
}

proof fn lemma_stats_keep(b: Book, stats: Stats, running: Seq<NodeId>, listed: Set<NodeId>)
    requires
        sound(b, running, listed),
        stats.at_most(b.nodes.len() - b.stack.len() - running.len()),
    ensures
        sound(Book { stats, ..b }, running, listed),
{
    let a = Book { stats, ..b };
    assert forall|k: int| 0 <= k < a.stack.len() implies open_dir(
        a,
        listed,
        (#[trigger] a.stack[k]).0,
    ) by {
        assert(open_dir(b, listed, b.stack[k].0));
    }
    assert forall|k: int| 0 <= k < running.len() implies open_dir(a, listed, #[trigger] running[k]) by {
        assert(open_dir(b, listed, running[k]));
    }
    assert forall|i: int|
        0 <= i < a.nodes.len() && (#[trigger] a.nodes[i]).kind is Dir
            && a.nodes[i].state is Scanned implies listed.contains(i as NodeId) || waits(a, i)
        || running.contains(i as NodeId) by {
        if waits(b, i) {
            let k = choose|k: int| 0 <= k < b.stack.len() && (#[trigger] b.stack[k]).0 == i;
            assert(a.stack[k].0 == i);
        }
    }
}

proof fn lemma_pop_keeps(b: Book, running: Seq<NodeId>, listed: Set<NodeId>)
    requires
        sound(b, running, listed),
        b.stack.len() > 0,
    ensures
        sound(
            Book { stack: b.stack.drop_last(), ..b },
            running.push(b.stack.last().0),
            listed,
        ),
{
    let last = b.stack.len() - 1;
    let id = b.stack[last].0;
    let a = Book { stack: b.stack.drop_last(), ..b };
    let busy = running.push(id);
    assert forall|k: int| 0 <= k < a.stack.len() implies open_dir(
        a,
        listed,
        (#[trigger] a.stack[k]).0,
    ) by {
        assert(open_dir(b, listed, b.stack[k].0));
    }
    assert forall|k: int| 0 <= k < busy.len() implies open_dir(a, listed, #[trigger] busy[k]) by {
        if k < running.len() {
            assert(open_dir(b, listed, running[k]));
        } else {
            assert(open_dir(b, listed, b.stack[last].0));
        }
    }
    assert(open_once(a, busy)) by {
        assert forall|i: int, j: int| 0 <= i < j < a.stack.len() implies (#[trigger] a.stack[i]).0
            != (#[trigger] a.stack[j]).0 by {
            assert(b.stack[i].0 != b.stack[j].0);
        }
        assert forall|i: int, j: int| 0 <= i < j < busy.len() implies (#[trigger] busy[i]) != (
        #[trigger] busy[j]) by {
            if j < running.len() {
                assert(running[i] != running[j]);
            } else {
                assert(b.stack[last].0 != running[i]);
            }
        }
        assert forall|i: int, j: int|
            0 <= i < a.stack.len() && 0 <= j < busy.len() implies (#[trigger] a.stack[i]).0 != (
        #[trigger] busy[j]) by {
            if j < running.len() {
                assert(b.stack[i].0 != running[j]);
            } else {
                assert(b.stack[i].0 != b.stack[last].0);
            }
        }
    }
    assert forall|i: int|
        0 <= i < a.nodes.len() && (#[trigger] a.nodes[i]).kind is Dir
            && a.nodes[i].state is Scanned implies listed.contains(i as NodeId) || waits(a, i)
        || busy.contains(i as NodeId) by {
        assert(b.nodes[i].kind is Dir);
        if waits(b, i) {
            let k = choose|k: int| 0 <= k < b.stack.len() && (#[trigger] b.stack[k]).0 == i;
            if k < last {
                assert(a.stack[k].0 == i);
            } else {
                assert(busy[running.len() as int] == i as NodeId);
            }
        } else if running.contains(i as NodeId) {
            let k = choose|k: int| 0 <= k < running.len() && running[k] == i as NodeId;
            assert(busy[k] == i as NodeId);
        }
    }
}

} // verus!
