//! What holds of the library as a whole: statements that relate several of its
//! functions, or every state that they can reach.

use vstd::prelude::*;
use crate::ffi;
use crate::model;
use crate::model::{Kind, Node, NodeId, Sizes, Totals};
use crate::paths;
use crate::plan::Plan;
use crate::report;
use crate::report::Reclaim;
use crate::scan;
use crate::scan::ScanResult;
use crate::sums;
use crate::sys::attrlist::Entry;
use crate::sys::ffi::{VDIR, VREG};
use crate::sys::mounts::Mount;
use crate::text;
use crate::treemap;
use crate::walk;
use crate::walk::{Book, Walk};

verus! {

/// The sums that the nodes with ids `lo..hi` show, added up.
pub open spec fn shown_sum(nodes: Seq<Node>, lo: int, hi: int) -> Totals
    decreases hi - lo,
{
    if lo >= hi {
        Totals::zero()
    } else {
        nodes[lo].shown().plus(shown_sum(nodes, lo + 1, hi))
    }
}

pub proof fn lemma_gather_is_block(before: Seq<Node>, after: Seq<Node>, i: int, lo: int)
    requires
        model::linked(before),
        model::nested(before),
        model::rolled(before, after),
        0 <= i < lo <= before.len(),
    ensures
        before[i].child_count == 0 ==> model::gather(before, i, lo) == Totals::zero(),
        before[i].child_count > 0 && lo <= before[i].first_child ==> model::gather(before, i, lo)
            == shown_sum(
            after,
            before[i].first_child as int,
            before[i].first_child + before[i].child_count,
        ),
        before[i].child_count > 0 && lo >= before[i].first_child ==> model::gather(before, i, lo)
            == shown_sum(after, lo, before[i].first_child + before[i].child_count),
    decreases before.len() - lo,
{
    if lo < before.len() {
        lemma_gather_is_block(before, after, i, lo + 1);
        assert(model::is_child(before, i, lo) <==> model::in_block(before[i], lo));
        assert(after[lo].shown() == model::total(before, lo));
    }
}

/// Rollup is exact: a directory, which has no bytes of its own, shows the sum of
/// what its children show, and as many unknown nodes as they do together, and
/// one more if it was not fully scanned itself.
pub proof fn law_directory_is_the_sum_of_its_children(before: Seq<Node>, after: Seq<Node>, i: int)
    requires
        model::linked(before),
        model::nested(before),
        model::rolled(before, after),
        0 <= i < before.len(),
        before[i].size == Sizes::nothing(),
    ensures
        ({
            let first = before[i].first_child as int;
            let children = if before[i].child_count == 0 {
                Totals::zero()
            } else {
                shown_sum(after, first, first + before[i].child_count)
            };
            after[i].shown() == before[i].tally().plus(children)
        }),
{
    lemma_gather_is_block(before, after, i, i + 1);
    assert(after[i].shown() == model::total(before, i));
    if before[i].child_count > 0 {
        assert(before[i].first_child > i);
    }
}

/// A leaf keeps its own sizes through rollup.
pub proof fn law_leaf_keeps_its_sizes(before: Seq<Node>, after: Seq<Node>, i: int)
    requires
        model::linked(before),
        model::nested(before),
        model::rolled(before, after),
        0 <= i < before.len(),
        before[i].child_count == 0,
    ensures
        after[i].size == before[i].size,
{
    lemma_gather_is_block(before, after, i, i + 1);
    assert(after[i].shown() == model::total(before, i));
}

/// Every byte counts once: the root shows the sum over all nodes.
pub proof fn law_root_shows_every_node_once(before: Seq<Node>, after: Seq<Node>)
    requires
        model::rooted(before),
        model::rolled(before, after),
        before.len() > 0,
    ensures
        after[0].shown() == model::tallied(before, before.len() as int),
{
    model::lemma_root_total(before);
    assert(after[0].shown() == model::total(before, 0));
}

proof fn lemma_none_unknown(nodes: Seq<Node>, i: int, lo: int)
    requires
        0 <= i < lo,
        i < nodes.len(),
    ensures
        model::gather(nodes, i, lo).unknown == 0 <==> forall|j: int|
            lo <= j < nodes.len() && #[trigger] model::is_child(nodes, i, j) ==> model::total(
                nodes,
                j,
            ).unknown == 0,
    decreases nodes.len() - lo,
{
    if lo < nodes.len() {
        lemma_none_unknown(nodes, i, lo + 1);
        model::lemma_gather_natural(nodes, i, lo + 1);
        model::lemma_gather_natural(nodes, lo, lo + 1);
        assert(model::total(nodes, lo) == nodes[lo].tally().plus(
            model::gather(nodes, lo, lo + 1),
        ));
        assert(model::is_child(nodes, i, lo) || !model::is_child(nodes, i, lo));
    }
}

/// What lies below a child lies below its parent.
proof fn lemma_below_child(nodes: Seq<Node>, a: int, c: int, d: int)
    requires
        0 <= a < nodes.len(),
        0 <= c < nodes.len(),
        model::is_child(nodes, a, c),
        model::at_or_below(nodes, c, d),
    ensures
        model::at_or_below(nodes, a, d),
    decreases d,
{
    if d == c {
        assert(model::at_or_below(nodes, a, a));
    } else {
        lemma_below_child(nodes, a, c, nodes[d].parent as int);
    }
}

/// The child of `a` through which `d` lies below `a`.
proof fn lemma_child_above(nodes: Seq<Node>, a: int, d: int) -> (c: int)
    requires
        0 <= a < nodes.len(),
        d != a,
        model::at_or_below(nodes, a, d),
    ensures
        a < c < nodes.len(),
        model::is_child(nodes, a, c),
        model::at_or_below(nodes, c, d),
    decreases d,
{
    let p = nodes[d].parent as int;
    if p == a {
        d
    } else {
        lemma_child_above(nodes, a, p)
    }
}

proof fn lemma_unknown_below(nodes: Seq<Node>, i: int)
    requires
        0 <= i < nodes.len(),
        forall|j: int| 0 <= j < nodes.len() ==> (#[trigger] nodes[j]).unknown_below == 0,
    ensures
        model::total(nodes, i).unknown == 0 <==> forall|d: int|
            0 <= d < nodes.len() && #[trigger] model::at_or_below(nodes, i, d)
                ==> nodes[d].state is Scanned,
    decreases nodes.len() - i,
{
    lemma_none_unknown(nodes, i, i + 1);
    model::lemma_gather_natural(nodes, i, i + 1);
    assert(nodes[i].unknown_below == 0);
    assert forall|c: int|
        i + 1 <= c < nodes.len() && #[trigger] model::is_child(nodes, i, c) implies (
    model::total(nodes, c).unknown == 0 <==> forall|d: int|
        0 <= d < nodes.len() && #[trigger] model::at_or_below(nodes, c, d)
            ==> nodes[d].state is Scanned) by {
        lemma_unknown_below(nodes, c);
    }
    if model::total(nodes, i).unknown == 0 {
        assert forall|d: int|
            0 <= d < nodes.len() && #[trigger] model::at_or_below(
                nodes,
                i,
                d,
            ) implies nodes[d].state is Scanned by {
            if d != i {
                let c = lemma_child_above(nodes, i, d);
                assert(model::is_child(nodes, i, c));
                assert(model::at_or_below(nodes, c, d));
            }
        }
    }
    if forall|d: int|
        0 <= d < nodes.len() && #[trigger] model::at_or_below(nodes, i, d)
            ==> nodes[d].state is Scanned {
        assert(model::at_or_below(nodes, i, i));
        assert forall|c: int|
            i + 1 <= c < nodes.len() && #[trigger] model::is_child(nodes, i, c) implies model::total(
            nodes,
            c,
        ).unknown == 0 by {
            assert forall|d: int|
                0 <= d < nodes.len() && #[trigger] model::at_or_below(
                    nodes,
                    c,
                    d,
                ) implies nodes[d].state is Scanned by {
                lemma_below_child(nodes, i, c, d);
            }
        }
    }
}

/// No total passes for complete where it is not: after a rollup a node shows no
/// unknown nodes exactly if everything at or below it is fully scanned.
pub proof fn law_complete_means_all_scanned(before: Seq<Node>, after: Seq<Node>, i: int)
    requires
        model::linked(before),
        model::rolled(before, after),
        0 <= i < before.len(),
        forall|j: int| 0 <= j < before.len() ==> (#[trigger] before[j]).unknown_below == 0,
    ensures
        after[i].unknown_below == 0 <==> forall|d: int|
            0 <= d < before.len() && #[trigger] model::at_or_below(before, i, d)
                ==> before[d].state is Scanned,
{
    lemma_unknown_below(before, i);
    assert(after[i].shown() == model::total(before, i));
}

/// Of a file, what is allocated is its own, or shared with clones, or pinned by a
/// snapshot, and never both of the latter.
pub proof fn law_sizes_of_a_file_add_up(e: Entry)
    ensures
        scan::split(e).balanced(),
        scan::split(e).physical == e.alloc_size,
        scan::split(e).shared_clones == 0 || scan::split(e).shared_snapshot == 0,
{
}

proof fn lemma_gather_balanced(nodes: Seq<Node>, i: int, lo: int)
    requires
        0 <= i < lo,
        forall|j: int| 0 <= j < nodes.len() ==> (#[trigger] nodes[j]).size.balanced(),
    ensures
        ({
            let t = model::gather(nodes, i, lo);
            t.physical == t.exclusive + t.shared_clones + t.shared_snapshot
        }),
    decreases nodes.len() - lo,
{
    if lo < nodes.len() {
        lemma_gather_balanced(nodes, i, lo + 1);
        lemma_gather_balanced(nodes, lo, lo + 1);
        assert(nodes[lo].size.balanced());
        assert(model::total(nodes, lo) == nodes[lo].tally().plus(
            model::gather(nodes, lo, lo + 1),
        ));
    }
}

/// The sizes add up at every node of a finished scan, not of files alone.
pub proof fn law_sizes_add_up_everywhere(
    walk: Walk,
    after: Seq<Node>,
    i: int,
)
    requires
        walk.wf(),
        model::rolled(walk.tree.nodes@, after),
        0 <= i < after.len(),
    ensures
        after[i].size.balanced(),
{
    let before = walk.tree.nodes@;
    assert forall|j: int| 0 <= j < before.len() implies (#[trigger] before[j]).size.balanced() by {
        assert(walk::plain(walk.book().nodes[j]));
    }
    lemma_gather_balanced(before, i, i + 1);
    assert(before[i].size.balanced());
    assert(after[i].shown() == model::total(before, i));
}

/// An object that was met stays met.
pub proof fn law_what_was_met_stays_met(
    b: Book,
    entries: Seq<Entry>,
    broken: Option<i32>,
    dir: NodeId,
    path: Seq<u8>,
    plan: Plan,
    k: int,
)
    requires
        0 <= k < entries.len(),
    ensures
        b.seen.subset_of(walk::with_listing(b, entries, broken, dir, path, plan).seen),
        walk::claims(entries[k]) && !walk::is_dots(entries[k].name@) ==> walk::with_listing(
            b,
            entries,
            broken,
            dir,
            path,
            plan,
        ).seen.contains(walk::identity_of(entries[k])),
{
    let n = entries.len() as int;
    walk::lemma_entries_add(b, entries, n, dir, path, plan);
    if walk::claims(entries[k]) && !walk::is_dots(entries[k].name@) {
        lemma_met_after(b, entries, k, n, dir, path, plan);
    }
}

proof fn lemma_met_after(
    b: Book,
    entries: Seq<Entry>,
    k: int,
    n: int,
    dir: NodeId,
    path: Seq<u8>,
    plan: Plan,
)
    requires
        0 <= k < n <= entries.len(),
        walk::claims(entries[k]),
        !walk::is_dots(entries[k].name@),
    ensures
        walk::with_entries(b, entries, n, dir, path, plan).seen.contains(
            walk::identity_of(entries[k]),
        ),
    decreases n,
{
    if k < n - 1 {
        lemma_met_after(b, entries, k, n - 1, dir, path, plan);
    }
}

/// Nothing counts twice: a directory that was met before is not descended into,
/// and a file that was met before through another link is an alias, with no
/// sizes and in no clone family.
pub proof fn law_nothing_counts_twice(
    b: Book,
    e: Entry,
    dir: NodeId,
    path: Seq<u8>,
    plan: Plan,
)
    requires
        walk::claims(e),
        !walk::is_dots(e.name@),
        b.seen.contains(walk::identity_of(e)),
    ensures
        ({
            let a = walk::with_entry(b, e, dir, path, plan);
            &&& a.stack == b.stack
            &&& a.families == b.families
            &&& a.clone_of == b.clone_of
            &&& a.nodes.last().size == Sizes::nothing()
            &&& e.objtype == VDIR ==> a.nodes.last().state is Skipped
            &&& e.objtype == VREG ==> a.nodes.last().hardlink_alias
        }),
{
}

/// Links are not followed: only directories are descended into, each as a node of
/// its own that was not met before.
pub proof fn law_only_new_directories_are_descended(
    b: Book,
    e: Entry,
    dir: NodeId,
    path: Seq<u8>,
    plan: Plan,
)
    requires
        walk::with_entry(b, e, dir, path, plan).stack != b.stack,
    ensures
        e.objtype == VDIR,
        !b.seen.contains(walk::identity_of(e)),
        !plan.in_group(paths::joined(path, e.name@)),
        walk::with_entry(b, e, dir, path, plan).stack == b.stack.push(
            (b.nodes.len() as NodeId, paths::joined(path, e.name@)),
        ),
{
}

/// A device that only mounts lie on that are not to be entered, such as an
/// external drive or a share on a network, stays closed, whatever the paths are.
pub proof fn law_refused_devices_stay_closed(
    plan: Plan,
    table: Seq<Mount>,
    root: Seq<u8>,
    root_dev: i32,
    dev: i32,
)
    requires
        plan.follows(table, root, root_dev),
        dev != root_dev,
        forall|i: int|
            0 <= i < table.len() && (#[trigger] table[i]).dev == dev ==> table[i].refusal() is Some,
    ensures
        !plan.allowed_devs@.contains(dev),
{
}

/// A directory on a device that the plan keeps out of is never read: what was read
/// was let in, on a device that may be entered, or on one that could not be found
/// out.
pub proof fn law_a_refused_device_is_never_read(walk: Walk, id: NodeId)
    requires
        walk.wf(),
        walk.listed@.contains(id),
    ensures
        walk.entered@.contains_key(id),
        walk.entered@[id] matches Some(dev) ==> walk.plan.allowed_devs@.contains(dev),
{
}

/// No directory is read twice: one that is handed out was not read before, and is
/// not being read.
pub proof fn law_no_directory_is_read_twice(walk: Walk)
    requires
        walk.wf(),
        walk.stack@.len() > 0,
    ensures
        !walk.listed@.contains(walk.stack@.last().id),
        !walk.running@.contains(walk.stack@.last().id),
{
    let b = walk.book();
    let last = b.stack.len() - 1;
    assert(b.stack[last].0 == walk.stack@.last().id);
    assert(walk::open_dir(b, walk.listed@, b.stack[last].0));
    assert forall|k: int| 0 <= k < walk.running@.len() implies walk.running@[k] != b.stack[last].0 by {
        assert(b.stack[last].0 != walk.running@[k]);
    }
}

/// A walk ends only when its work is done: if no directory waits and none is
/// being read, then every directory that passes for fully scanned was read.
pub proof fn law_a_finished_walk_has_read_everything(walk: Walk, i: int)
    requires
        walk.wf(),
        walk.stack@.len() == 0,
        walk.running@.len() == 0,
        0 <= i < walk.tree.nodes@.len(),
        walk.tree.nodes@[i].kind is Dir,
        walk.tree.nodes@[i].state is Scanned,
    ensures
        walk.listed@.contains(i as NodeId),
{
    let b = walk.book();
    assert(b.nodes[i].kind is Dir);
    assert(!walk::waits(b, i));
    assert(!walk.running@.contains(i as NodeId));
}

/// The counts of a walk are those of its tree, and of the directories that were
/// read.
pub proof fn law_counts_are_those_of_the_tree(walk: Walk)
    requires
        walk.wf(),
    ensures
        ({
            let n = walk.tree.nodes@.len() as int;
            &&& walk.stats.files == walk::count_kind(walk.tree.nodes@, Kind::File, n)
            &&& walk.stats.symlinks == walk::count_kind(walk.tree.nodes@, Kind::Symlink, n)
            &&& walk.stats.hardlink_aliases == walk::count_aliases(walk.tree.nodes@, n)
            &&& walk.stats.dirs == walk.listed@.len()
        }),
{
}

/// The directories that wait carry the paths that the tree gives them.
pub open spec fn carries_paths(b: Book) -> bool {
    forall|k: int|
        0 <= k < b.stack.len() ==> (#[trigger] b.stack[k]).1 == model::path_at(
            b.nodes,
            b.names,
            b.stack[k].0 as int,
        )
}

proof fn lemma_entry_paths(b: Book, e: Entry, dir: NodeId, path: Seq<u8>, plan: Plan)
    requires
        model::rooted(b.nodes),
        model::named_in(b.nodes, b.names),
        b.nodes.len() < u32::MAX,
        dir < b.nodes.len(),
        forall|k: int| 0 <= k < b.stack.len() ==> (#[trigger] b.stack[k]).0 < b.nodes.len(),
        carries_paths(b),
        path == model::path_at(b.nodes, b.names, dir as int),
        e.name@.len() <= u16::MAX,
        b.names.len() + e.name@.len() <= u32::MAX,
    ensures
        ({
            let a = walk::with_entry(b, e, dir, path, plan);
            &&& carries_paths(a)
            &&& path == model::path_at(a.nodes, a.names, dir as int)
        }),
{
    let a = walk::with_entry(b, e, dir, path, plan);
    if !walk::is_dots(e.name@) {
        let n = b.nodes.len() as int;
        assert(a.names.take(b.names.len() as int) =~= b.names);
        model::lemma_path_local(b.nodes, b.names, a.nodes, a.names, dir as int);
        assert(model::name_at(a.nodes, a.names, n) =~= e.name@);
        assert(a.nodes[n].parent == dir);
        assert(model::path_at(a.nodes, a.names, n) == paths::joined(path, e.name@));
        assert forall|k: int| 0 <= k < a.stack.len() implies (#[trigger] a.stack[k]).1
            == model::path_at(a.nodes, a.names, a.stack[k].0 as int) by {
            if k < b.stack.len() {
                assert(a.stack[k] == b.stack[k]);
                model::lemma_path_local(b.nodes, b.names, a.nodes, a.names, b.stack[k].0 as int);
            }
        }
    }
}

proof fn lemma_entries_paths(
    b: Book,
    entries: Seq<Entry>,
    n: int,
    dir: NodeId,
    path: Seq<u8>,
    plan: Plan,
    running: Seq<NodeId>,
    listed: Set<NodeId>,
)
    requires
        walk::taking_in(b, running, listed, dir, b.nodes.len() as int),
        0 <= n <= entries.len(),
        b.nodes.len() + n <= u32::MAX,
        carries_paths(b),
        path == model::path_at(b.nodes, b.names, dir as int),
        forall|k: int| 0 <= k < entries.len() ==> (#[trigger] entries[k]).name@.len() <= u16::MAX,
        walk::with_entries(b, entries, n, dir, path, plan).names.len() <= u32::MAX,
    ensures
        ({
            let a = walk::with_entries(b, entries, n, dir, path, plan);
            &&& carries_paths(a)
            &&& path == model::path_at(a.nodes, a.names, dir as int)
        }),
    decreases n,
{
    if n > 0 {
        let m = walk::with_entries(b, entries, n - 1, dir, path, plan);
        let e = entries[n - 1];
        walk::lemma_entries_keep(
            b,
            entries,
            n - 1,
            dir,
            path,
            plan,
            running,
            listed,
            b.nodes.len() as int,
        );
        lemma_entries_paths(b, entries, n - 1, dir, path, plan, running, listed);
        assert forall|k: int| 0 <= k < m.stack.len() implies (#[trigger] m.stack[k]).0
            < m.nodes.len() by {
            assert(walk::open_dir(m, listed, m.stack[k].0));
        }
        if walk::is_dots(e.name@) {
        } else {
            lemma_entry_paths(m, e, dir, path, plan);
        }
    }
}

/// Paths hold together: as long as names and their places fit, reading a
/// directory whose task carries its path leaves every path as it was, and every
/// directory that waits then carries its path.
pub proof fn law_tasks_carry_their_paths(
    before: Walk,
    after: Walk,
    dir: NodeId,
    path: Seq<u8>,
    entries: Seq<Entry>,
    broken: Option<i32>,
)
    requires
        before.wf(),
        before.running@.contains(dir),
        before.tree.nodes@.len() + entries.len() <= u32::MAX,
        after.book() == walk::with_listing(
            before.book(),
            entries,
            broken,
            dir,
            path,
            before.plan,
        ),
        carries_paths(before.book()),
        path == before.tree.path_of(dir as int),
        after.tree.names@.len() <= u32::MAX,
        forall|k: int| 0 <= k < entries.len() ==> (#[trigger] entries[k]).name@.len() <= u16::MAX,
    ensures
        carries_paths(after.book()),
        forall|i: int|
            0 <= i < before.tree.nodes@.len() ==> #[trigger] after.tree.path_of(i)
                == before.tree.path_of(i),
{
    let b = before.book();
    let n = entries.len() as int;
    let c = walk::with_entries(b, entries, n, dir, path, before.plan);
    let a = after.book();
    let k = before.running@.index_of(dir);
    let rest = before.running@.remove(k);
    let listed = before.listed@.insert(dir);
    walk::lemma_start_taking_in(b, before.running@, before.listed@, k);
    lemma_entries_paths(b, entries, n, dir, path, before.plan, rest, listed);
    walk::lemma_entries_keep(
        b,
        entries,
        n,
        dir,
        path,
        before.plan,
        rest,
        listed,
        b.nodes.len() as int,
    );
    walk::lemma_entries_add(b, entries, n, dir, path, before.plan);
    assert forall|i: int| 0 <= i < c.nodes.len() implies (#[trigger] a.nodes[i]).name_off
        == c.nodes[i].name_off && a.nodes[i].name_len == c.nodes[i].name_len && a.nodes[i].parent
        == c.nodes[i].parent by {
    }
    assert(a.names.take(c.names.len() as int) =~= c.names);
    assert forall|j: int| 0 <= j < a.stack.len() implies (#[trigger] a.stack[j]).1
        == model::path_at(a.nodes, a.names, a.stack[j].0 as int) by {
        assert(c.stack[j].1 == model::path_at(c.nodes, c.names, c.stack[j].0 as int));
        assert(walk::open_dir(c, listed, c.stack[j].0));
        model::lemma_path_local(c.nodes, c.names, a.nodes, a.names, c.stack[j].0 as int);
    }
    assert forall|i: int| 0 <= i < b.nodes.len() implies #[trigger] after.tree.path_of(i)
        == before.tree.path_of(i) by {
        assert forall|j: int| 0 <= j < b.nodes.len() implies (#[trigger] a.nodes[j]).name_off
            == b.nodes[j].name_off && a.nodes[j].name_len == b.nodes[j].name_len && a.nodes[j].parent
            == b.nodes[j].parent by {
            assert(c.nodes.take(b.nodes.len() as int)[j] == b.nodes[j]);
            assert(a.nodes[j].name_off == c.nodes[j].name_off);
        }
        model::lemma_path_local(b.nodes, b.names, a.nodes, a.names, i);
    }
}

/// The two selections cover the same nodes.
spec fn same_cover(r: ScanResult, a: Seq<NodeId>, b: Seq<NodeId>) -> bool {
    forall|d: int|
        0 <= d < r.tree.nodes@.len() ==> #[trigger] report::covered(r.tree.nodes@, a, d)
            == report::covered(r.tree.nodes@, b, d)
}

proof fn lemma_same_picked(r: ScanResult, a: Seq<NodeId>, b: Seq<NodeId>, n: int)
    requires
        same_cover(r, a, b),
        0 <= n <= r.tree.nodes@.len(),
    ensures
        report::picked(r.tree.nodes@, a, n) == report::picked(r.tree.nodes@, b, n),
    decreases n,
{
    if n > 0 {
        lemma_same_picked(r, a, b, n - 1);
        assert(report::covered(r.tree.nodes@, a, n - 1) == report::covered(
            r.tree.nodes@,
            b,
            n - 1,
        ));
    }
}

/// What is freed depends on the nodes that are covered alone.
proof fn lemma_same_reclaim(r: ScanResult, a: Seq<NodeId>, b: Seq<NodeId>, out: Reclaim)
    requires
        same_cover(r, a, b),
    ensures
        report::reclaims(out, r, a) == report::reclaims(out, r, b),
{
    let n = r.tree.nodes@.len() as int;
    lemma_same_picked(r, a, b, n);
    assert forall|c: u64| #[trigger] report::chosen(r, a, c) == report::chosen(r, b, c) by {
        assert(report::chosen(r, a, c) =~= report::chosen(r, b, c)) by {
            assert forall|id: NodeId| report::chosen(r, a, c).contains(id) == report::chosen(
                r,
                b,
                c,
            ).contains(id) by {
                if id < n {
                    assert(report::covered(r.tree.nodes@, a, id as int) == report::covered(
                        r.tree.nodes@,
                        b,
                        id as int,
                    ));
                }
            }
        }
    }
    assert forall|c: u64|
        report::completes(r, a, c) == report::completes(r, b, c) && report::touches(r, a, c)
            == report::touches(r, b, c) by {
        assert(report::chosen(r, a, c) == report::chosen(r, b, c));
    }
    assert(report::completed_families(r, a) =~= report::completed_families(r, b));
    assert(report::touched_families(r, a) =~= report::touched_families(r, b));
}

/// A node below one that is selected adds nothing when it is selected too: what
/// overlaps counts once.
pub proof fn law_overlaps_count_once(r: ScanResult, sel: Seq<NodeId>, id: NodeId, out: Reclaim)
    requires
        id < r.tree.nodes@.len(),
        report::covered(r.tree.nodes@, sel, id as int),
    ensures
        report::reclaims(out, r, sel.push(id)) == report::reclaims(out, r, sel),
{
    let nodes = r.tree.nodes@;
    let more = sel.push(id);
    assert forall|d: int| 0 <= d < nodes.len() implies #[trigger] report::covered(nodes, more, d)
        == report::covered(nodes, sel, d) by {
        if report::covered(nodes, sel, d) {
            let k = choose|k: int|
                0 <= k < sel.len() && (#[trigger] sel[k]) < nodes.len() && model::at_or_below(
                    nodes,
                    sel[k] as int,
                    d,
                );
            assert(more[k] == sel[k]);
        }
        if report::covered(nodes, more, d) {
            let k = choose|k: int|
                0 <= k < more.len() && (#[trigger] more[k]) < nodes.len() && model::at_or_below(
                    nodes,
                    more[k] as int,
                    d,
                );
            if k < sel.len() {
                assert(sel[k] == more[k]);
            } else {
                let j = choose|j: int|
                    0 <= j < sel.len() && (#[trigger] sel[j]) < nodes.len() && model::at_or_below(
                        nodes,
                        sel[j] as int,
                        id as int,
                    );
                lemma_below_below(nodes, sel[j] as int, id as int, d);
            }
        }
    }
    lemma_same_reclaim(r, more, sel, out);
}

/// What lies below something that lies below `a` lies below `a`.
proof fn lemma_below_below(nodes: Seq<Node>, a: int, b: int, d: int)
    requires
        model::at_or_below(nodes, a, b),
        model::at_or_below(nodes, b, d),
    ensures
        model::at_or_below(nodes, a, d),
    decreases d,
{
    if d != b {
        lemma_below_below(nodes, a, b, nodes[d].parent as int);
    }
}

/// Neither the order of a selection matters nor how often a node is in it.
pub proof fn law_order_and_repetition_do_not_matter(
    r: ScanResult,
    a: Seq<NodeId>,
    b: Seq<NodeId>,
    out: Reclaim,
)
    requires
        a.to_set() == b.to_set(),
    ensures
        report::reclaims(out, r, a) == report::reclaims(out, r, b),
{
    assert forall|d: int| 0 <= d < r.tree.nodes@.len() implies #[trigger] report::covered(
        r.tree.nodes@,
        a,
        d,
    ) == report::covered(r.tree.nodes@, b, d) by {
        if report::covered(r.tree.nodes@, a, d) {
            lemma_cover_by_set(r.tree.nodes@, a, b, d);
        }
        if report::covered(r.tree.nodes@, b, d) {
            lemma_cover_by_set(r.tree.nodes@, b, a, d);
        }
    }
    lemma_same_reclaim(r, a, b, out);
}

proof fn lemma_cover_by_set(nodes: Seq<Node>, a: Seq<NodeId>, b: Seq<NodeId>, d: int)
    requires
        a.to_set().subset_of(b.to_set()),
        report::covered(nodes, a, d),
    ensures
        report::covered(nodes, b, d),
{
    let k = choose|k: int|
        0 <= k < a.len() && (#[trigger] a[k]) < nodes.len() && model::at_or_below(
            nodes,
            a[k] as int,
            d,
        );
    assert(a.to_set().contains(a[k]));
    assert(b.to_set().contains(a[k]));
    let j = choose|j: int| 0 <= j < b.len() && b[j] == a[k];
    assert(b[j] < nodes.len());
}

/// An id that the tree does not have selects nothing.
pub proof fn law_unknown_ids_select_nothing(
    r: ScanResult,
    sel: Seq<NodeId>,
    id: NodeId,
    out: Reclaim,
)
    requires
        id >= r.tree.nodes@.len(),
    ensures
        report::reclaims(out, r, sel.push(id)) == report::reclaims(out, r, sel),
{
    let nodes = r.tree.nodes@;
    let more = sel.push(id);
    assert forall|d: int| 0 <= d < nodes.len() implies #[trigger] report::covered(nodes, more, d)
        == report::covered(nodes, sel, d) by {
        if report::covered(nodes, sel, d) {
            let k = choose|k: int|
                0 <= k < sel.len() && (#[trigger] sel[k]) < nodes.len() && model::at_or_below(
                    nodes,
                    sel[k] as int,
                    d,
                );
            assert(more[k] == sel[k]);
        }
        if report::covered(nodes, more, d) {
            let k = choose|k: int|
                0 <= k < more.len() && (#[trigger] more[k]) < nodes.len() && model::at_or_below(
                    nodes,
                    more[k] as int,
                    d,
                );
            assert(sel[k] == more[k]);
        }
    }
    lemma_same_reclaim(r, more, sel, out);
}

/// Deleting some of the clones of a family, but not all of them, frees nothing of
/// what they share, and deleting all of them frees it once.
pub proof fn law_a_family_frees_its_bytes_once_it_is_complete(
    r: ScanResult,
    sel: Seq<NodeId>,
    c: u64,
)
    requires
        r.families@.dom().finite(),
        r.families@.contains_key(c),
        r.families@[c].refcnt > 1,
    ensures
        ({
            let m = r.families@;
            let done = report::completed_families(r, sel);
            if report::chosen(r, sel, c).len() < m[c].refcnt {
                report::shared_by(m, done) == report::shared_by(m, done.remove(c))
            } else {
                report::shared_by(m, done) == m[c].shared_bytes + report::shared_by(
                    m,
                    done.remove(c),
                )
            }
        }),
{
    let m = r.families@;
    let done = report::completed_families(r, sel);
    m.dom().lemma_len_filter(|c: u64| report::completes(r, sel, c));
    if report::chosen(r, sel, c).len() < m[c].refcnt {
        assert(done.remove(c) =~= done);
    } else {
        sums::lemma_sum_remove(done, |c: u64| m[c].shared_bytes as int, c);
    }
}

proof fn lemma_cover_all(nodes: Seq<Node>, d: int)
    requires
        model::rooted(nodes),
        0 <= d < nodes.len(),
    ensures
        model::at_or_below(nodes, 0, d),
    decreases d,
{
    if d > 0 {
        assert(nodes[d].parent < d);
        lemma_cover_all(nodes, nodes[d].parent as int);
    }
}

proof fn lemma_pick_all(before: Seq<Node>, after: Seq<Node>, sel: Seq<NodeId>, n: int)
    requires
        model::linked(before),
        model::nested(before),
        model::rolled(before, after),
        forall|i: int| 0 <= i < before.len() ==> walk::plain(#[trigger] before[i]),
        forall|d: int| 0 <= d < before.len() ==> #[trigger] report::covered(after, sel, d),
        0 <= n <= before.len(),
    ensures
        report::picked(after, sel, n).exclusive == model::tallied(before, n).exclusive,
        report::picked(after, sel, n).physical == model::tallied(before, n).physical,
        report::picked(after, sel, n).pinned == model::tallied(before, n).shared_snapshot,
        report::picked(after, sel, n).unknown == model::tallied(before, n).unknown,
    decreases n,
{
    if n > 0 {
        lemma_pick_all(before, after, sel, n - 1);
        assert(report::covered(after, sel, n - 1));
        assert(walk::plain(before[n - 1]));
        assert(after[n - 1].same_but_sums(before[n - 1]));
        if !(before[n - 1].kind is Dir) {
            law_leaf_keeps_its_sizes(before, after, n - 1);
        }
    }
}

/// Deleting everything that was scanned frees what the root owns alone and what
/// the families share that are wholly in the scan, and comes to the totals that
/// the root shows. (A family without an id has no members that are known.)
pub proof fn law_deleting_everything(walk: Walk, r: ScanResult, out: Reclaim)
    requires
        walk.wf(),
        model::rolled(walk.tree.nodes@, r.tree.nodes@),
        r.families@ == walk.families@,
        r.clone_of@ == walk.clone_of@,
        !r.families@.contains_key(0),
        report::reclaims(out, r, seq![model::ROOT]),
    ensures
        ({
            let root = r.tree.nodes@[0];
            &&& out.from_exclusive == root.size.exclusive
            &&& out.from_completed_families == report::shared_by(
                r.families@,
                report::whole_families(r.families@),
            )
            &&& out.physical == root.size.physical
            &&& out.pinned_by_snapshot == root.size.shared_snapshot
            &&& out.unknown == root.unknown_below
        }),
{
    let before = walk.tree.nodes@;
    let after = r.tree.nodes@;
    let sel = seq![model::ROOT];
    let n = before.len() as int;
    walk::lemma_rolled_keeps(before, after, r.tree.names@);
    assert forall|d: int| 0 <= d < n implies #[trigger] report::covered(after, sel, d) by {
        lemma_cover_all(after, d);
        assert(sel[0] == 0);
    }
    assert forall|i: int| 0 <= i < before.len() implies walk::plain(#[trigger] before[i]) by {
        assert(walk::plain(walk.book().nodes[i]));
    }
    lemma_pick_all(before, after, sel, n);
    law_root_shows_every_node_once(before, after);
    let m = r.families@;
    assert(walk::accounted(walk.book()));
    assert forall|c: u64| #[trigger]
        report::completed_families(r, sel).contains(c) == report::whole_families(m).contains(c) by {
        if m.contains_key(c) {
            assert(report::chosen(r, sel, c) =~= walk::members(r.clone_of@, c)) by {
                assert forall|id: NodeId| #[trigger]
                    walk::members(r.clone_of@, c).contains(id) implies report::chosen(
                    r,
                    sel,
                    c,
                ).contains(id) by {
                    assert(walk.clone_of@.contains_key(id));
                    assert(report::covered(after, sel, id as int));
                }
            }
            assert(walk.book().families.contains_key(c));
        }
    }
    assert(report::completed_families(r, sel) =~= report::whole_families(m));
}

proof fn lemma_more_picked(nodes: Seq<Node>, a: Seq<NodeId>, b: Seq<NodeId>, n: int)
    requires
        a.to_set().subset_of(b.to_set()),
        0 <= n <= nodes.len(),
    ensures
        0 <= report::picked(nodes, a, n).exclusive <= report::picked(nodes, b, n).exclusive,
    decreases n,
{
    if n > 0 {
        lemma_more_picked(nodes, a, b, n - 1);
        if report::covered(nodes, a, n - 1) {
            lemma_cover_by_set(nodes, a, b, n - 1);
        }
    }
}

/// Selecting more never frees less.
pub proof fn law_more_never_frees_less(
    r: ScanResult,
    a: Seq<NodeId>,
    b: Seq<NodeId>,
    less: Reclaim,
    more: Reclaim,
)
    requires
        r.families@.dom().finite(),
        r.clone_of@.dom().finite(),
        a.to_set().subset_of(b.to_set()),
        report::reclaims(less, r, a),
        report::reclaims(more, r, b),
    ensures
        less.bytes <= more.bytes,
{
    let nodes = r.tree.nodes@;
    let m = r.families@;
    lemma_more_picked(nodes, a, b, nodes.len() as int);
    assert forall|c: u64| report::completes(r, a, c) implies report::completes(r, b, c) by {
        let x = report::chosen(r, a, c);
        let y = report::chosen(r, b, c);
        r.clone_of@.dom().lemma_len_filter(|id: NodeId| r.clone_of@[id] == c);
        walk::members(r.clone_of@, c).lemma_len_filter(
            |id: NodeId| id < nodes.len() as int && report::covered(nodes, b, id as int),
        );
        assert forall|id: NodeId| #[trigger] x.contains(id) implies y.contains(id) by {
            lemma_cover_by_set(nodes, a, b, id as int);
        }
        vstd::set_lib::lemma_len_subset(x, y);
    }
    let s = report::completed_families(r, a);
    let t = report::completed_families(r, b);
    m.dom().lemma_len_filter(|c: u64| report::completes(r, b, c));
    assert(s.subset_of(t));
    sums::lemma_sum_grows(s, t, |c: u64| m[c].shared_bytes as int);
}

/// A member that shares as much as its family does.
spec fn speaker(b: Book, c: u64) -> NodeId {
    choose|id: NodeId| walk::speaks_for(b, c, id)
}

/// Families share no more than the files that speak for them, and there are no
/// more families than files.
proof fn lemma_families_below(b: Book, ids: Set<u64>, n: int)
    requires
        walk::accounted(b),
        ids.subset_of(b.families.dom()),
        0 <= n <= b.nodes.len(),
    ensures
        ({
            let part = ids.filter(|c: u64| speaker(b, c) < n);
            &&& part.finite()
            &&& part.len() <= n
            &&& 0 <= report::shared_by(b.families, part) <= model::tallied(b.nodes, n).shared_clones
        }),
    decreases n,
{
    let m = b.families;
    let f = |c: u64| m[c].shared_bytes as int;
    let part = ids.filter(|c: u64| speaker(b, c) < n);
    if n == 0 {
        assert(part =~= Set::empty());
    } else {
        lemma_families_below(b, ids, n - 1);
        let before = ids.filter(|c: u64| speaker(b, c) < n - 1);
        if exists|c: u64| #[trigger] ids.contains(c) && speaker(b, c) == n - 1 {
            let c = choose|c: u64| #[trigger] ids.contains(c) && speaker(b, c) == n - 1;
            assert(m.contains_key(c));
            assert(walk::speaks_for(b, c, speaker(b, c)));
            assert forall|d: u64| #[trigger] ids.contains(d) && speaker(b, d) == n - 1 implies d == c by {
                assert(m.contains_key(d));
                assert(walk::speaks_for(b, d, speaker(b, d)));
            }
            assert(part =~= before.insert(c));
            sums::lemma_sum_insert(before, f, c);
        } else {
            assert(part =~= before);
        }
    }
}

proof fn lemma_picked_bound(before: Seq<Node>, after: Seq<Node>, sel: Seq<NodeId>, n: int)
    requires
        model::linked(before),
        model::nested(before),
        model::rolled(before, after),
        forall|i: int| 0 <= i < before.len() ==> walk::plain(#[trigger] before[i]),
        0 <= n <= before.len(),
    ensures
        ({
            let p = report::picked(after, sel, n);
            let t = model::tallied(before, n);
            &&& p.exclusive <= t.exclusive
            &&& p.physical <= t.physical
            &&& p.pinned <= t.shared_snapshot
            &&& t.physical == t.exclusive + t.shared_clones + t.shared_snapshot
            &&& t.shared_snapshot >= 0
        }),
    decreases n,
{
    if n > 0 {
        lemma_picked_bound(before, after, sel, n - 1);
        assert(walk::plain(before[n - 1]));
        assert(after[n - 1].same_but_sums(before[n - 1]));
        if !(before[n - 1].kind is Dir) {
            law_leaf_keeps_its_sizes(before, after, n - 1);
        }
    }
}

/// What deleting nodes of a finished scan comes to always fits, whatever is
/// selected, and so does what its whole families share.
pub proof fn law_figures_of_a_scan_fit(walk: Walk, r: ScanResult, sel: Seq<NodeId>)
    requires
        walk.wf(),
        model::total(walk.tree.nodes@, 0).fits(),
        model::rolled(walk.tree.nodes@, r.tree.nodes@),
        r.families@ == walk.families@,
        r.clone_of@ == walk.clone_of@,
    ensures
        report::reclaim_fits(r, sel),
        report::shared_by(r.families@, report::whole_families(r.families@)) <= u64::MAX,
{
    let b = walk.book();
    let before = walk.tree.nodes@;
    let n = before.len() as int;
    let m = r.families@;
    assert forall|i: int| 0 <= i < before.len() implies walk::plain(#[trigger] before[i]) by {
        assert(walk::plain(b.nodes[i]));
    }
    lemma_picked_bound(before, r.tree.nodes@, sel, n);
    model::lemma_root_total(before);
    lemma_bound_families(b, report::completed_families(r, sel));
    lemma_bound_families(b, report::touched_families(r, sel));
    lemma_bound_families(b, report::whole_families(m));
}

proof fn lemma_bound_families(b: Book, ids: Set<u64>)
    requires
        walk::accounted(b),
        ids.subset_of(b.families.dom()),
    ensures
        ids.finite(),
        ids.len() <= b.nodes.len(),
        0 <= report::shared_by(b.families, ids) <= model::tallied(
            b.nodes,
            b.nodes.len() as int,
        ).shared_clones,
{
    let n = b.nodes.len() as int;
    lemma_families_below(b, ids, n);
    assert forall|c: u64| #[trigger] ids.contains(c) implies speaker(b, c) < n by {
        assert(b.families.contains_key(c));
        assert(walk::speaks_for(b, c, speaker(b, c)));
    }
    assert(ids =~= ids.filter(|c: u64| speaker(b, c) < n));
}

/// Two slashes stand side by side.
pub open spec fn has_double_slash(p: Seq<u8>) -> bool {
    exists|i: int| 0 <= i < p.len() - 1 && #[trigger] p[i] == paths::SLASH && p[i + 1] == paths::SLASH
}

/// Joining a name to a path never brings two slashes together.
pub proof fn law_joining_doubles_no_slash(parent: Seq<u8>, name: Seq<u8>)
    requires
        !has_double_slash(parent),
        forall|i: int| 0 <= i < name.len() ==> (#[trigger] name[i]) != paths::SLASH,
    ensures
        !has_double_slash(paths::joined(parent, name)),
{
    let p = paths::joined(parent, name);
    if has_double_slash(p) {
        let i = choose|i: int|
            0 <= i < p.len() - 1 && #[trigger] p[i] == paths::SLASH && p[i + 1] == paths::SLASH;
        if i + 1 < parent.len() {
            assert(parent[i] == p[i] && parent[i + 1] == p[i + 1]);
        } else if paths::ends_with_slash(parent) {
            assert(p[i + 1] == name[i + 1 - parent.len()]);
        } else if i + 1 == parent.len() {
            assert(p[i] == parent[i] && parent.last() == parent[i]);
        } else {
            assert(p[i + 1] == name[i + 1 - parent.len() - 1]);
        }
    }
}

/// Two windows side by side show what one window over both shows: a front end
/// that scrolls sees every child once.
pub proof fn law_windows_fit_together(ids: Seq<NodeId>, offset: int, a: int, b: int)
    requires
        0 <= offset,
        0 <= a,
        0 <= b,
    ensures
        ffi::window(ids, offset, a) + ffi::window(ids, offset + a, b) == ffi::window(
            ids,
            offset,
            a + b,
        ),
{
    assert(ffi::window(ids, offset, a) + ffi::window(ids, offset + a, b) =~= ffi::window(
        ids,
        offset,
        a + b,
    ));
}

/// The tiles that are drawn alone and those that are drawn as one block come to
/// the whole.
pub proof fn law_no_byte_is_left_out_of_a_treemap(
    nodes: Seq<Node>,
    ids: Seq<NodeId>,
    head: int,
)
    requires
        0 <= head <= ids.len(),
    ensures
        treemap::physical_from(nodes, ids.take(head), 0) + treemap::physical_from(nodes, ids, head)
            == treemap::physical_from(nodes, ids, 0),
{
    lemma_split_physical(nodes, ids, head, 0);
}

proof fn lemma_split_physical(nodes: Seq<Node>, ids: Seq<NodeId>, head: int, lo: int)
    requires
        0 <= lo <= head <= ids.len(),
    ensures
        treemap::physical_from(nodes, ids.take(head), lo) + treemap::physical_from(
            nodes,
            ids,
            head,
        ) == treemap::physical_from(nodes, ids, lo),
    decreases head - lo,
{
    if lo < head {
        lemma_split_physical(nodes, ids, head, lo + 1);
        assert(ids.take(head)[lo] == ids[lo]);
    }
}

/// The first `n` pieces with a blank between each two.
pub open spec fn spaced(pieces: Seq<Seq<char>>, n: int) -> Seq<char>
    decreases n,
{
    if n <= 0 {
        Seq::empty()
    } else if n == 1 {
        pieces[0]
    } else {
        spaced(pieces, n - 1).push(' ') + pieces[n - 1]
    }
}

proof fn lemma_spaced_local(a: Seq<Seq<char>>, b: Seq<Seq<char>>, n: int)
    requires
        0 <= n <= a.len(),
        n <= b.len(),
        forall|k: int| 0 <= k < n ==> a[k] == b[k],
    ensures
        spaced(a, n) == spaced(b, n),
    decreases n,
{
    if n > 0 {
        lemma_spaced_local(a, b, n - 1);
    }
}

proof fn lemma_lines_keep_words(words: Seq<Seq<char>>, n: int, w: int)
    requires
        0 <= n <= words.len(),
    ensures
        ({
            let ls = text::lines(words, n, w);
            &&& spaced(ls, ls.len() as int) == spaced(words, n)
            &&& ls.len() == 0 <==> n == 0
        }),
    decreases n,
{
    if n > 0 {
        lemma_lines_keep_words(words, n - 1, w);
        let before = text::lines(words, n - 1, w);
        let after = text::lines(words, n, w);
        let k = before.len() as int;
        let word = words[n - 1];
        if after.len() == before.len() + 1 {
            lemma_spaced_local(before, after, k);
            assert(after[k] == word);
        } else {
            lemma_spaced_local(before, after, k - 1);
            assert(after[k - 1] == before[k - 1].push(' ') + word);
            if k == 1 {
                assert(spaced(after, 1) =~= spaced(words, n));
            } else {
                assert(spaced(after, k) == spaced(after, k - 1).push(' ') + after[k - 1]);
                assert(spaced(before, k) == spaced(before, k - 1).push(' ') + before[k - 1]);
                assert(spaced(after, k) =~= spaced(words, n));
            }
        }
    }
}

/// Wrapping loses no word and moves none: the lines, with a blank between each
/// two, read as the words do.
pub proof fn law_wrapping_keeps_the_words(s: Seq<char>, w: int)
    ensures
        ({
            let ws = text::words(s);
            let ls = text::lines(ws, ws.len() as int, w);
            spaced(ls, ls.len() as int) == spaced(ws, ws.len() as int)
        }),
{
    lemma_lines_keep_words(text::words(s), text::words(s).len() as int, w);
}

proof fn lemma_byte_len(a: Seq<char>, b: Seq<char>)
    ensures
        text::byte_len(a + b) == text::byte_len(a) + text::byte_len(b),
    decreases a.len(),
{
    if a.len() == 0 {
        assert(a + b =~= b);
    } else {
        lemma_byte_len(a.drop_first(), b);
        assert((a + b).drop_first() =~= a.drop_first() + b);
    }
}

proof fn lemma_blank_is_one_byte(a: Seq<char>)
    ensures
        text::byte_len(a.push(' ')) == text::byte_len(a) + 1,
{
    lemma_byte_len(a, seq![' ']);
    assert(a + seq![' '] =~= a.push(' '));
    assert(text::byte_len(seq![' ']) == 1) by {
        let s = seq![' '];
        assert(s.drop_first() =~= Seq::empty());
        assert(vstd::utf8::encode_utf8(s) == vstd::utf8::encode_scalar(s[0] as u32)
            + vstd::utf8::encode_utf8(s.drop_first()));
    }
}

proof fn lemma_lines_fit(words: Seq<Seq<char>>, n: int, w: int, k: int)
    requires
        0 <= n <= words.len(),
        0 <= k < text::lines(words, n, w).len(),
    ensures
        text::byte_len(text::lines(words, n, w)[k]) <= w || words.contains(
            text::lines(words, n, w)[k],
        ),
    decreases n,
{
    let before = text::lines(words, n - 1, w);
    let after = text::lines(words, n, w);
    let word = words[n - 1];
    if k < before.len() - 1 || (after.len() == before.len() + 1 && k < before.len()) {
        lemma_lines_fit(words, n - 1, w, k);
        assert(after[k] == before[k]);
    } else if after.len() == before.len() + 1 {
        assert(after[k] == word);
        assert(words.contains(word));
    } else {
        lemma_blank_is_one_byte(before.last());
        lemma_byte_len(before.last().push(' '), word);
    }
}

/// No line is longer than asked for, but for a word that is longer by itself.
pub proof fn law_wrapped_lines_fit(s: Seq<char>, w: int, k: int)
    requires
        0 <= k < text::lines(text::words(s), text::words(s).len() as int, w).len(),
    ensures
        ({
            let ws = text::words(s);
            let line = text::lines(ws, ws.len() as int, w)[k];
            text::byte_len(line) <= w || ws.contains(line)
        }),
{
    lemma_lines_fit(text::words(s), text::words(s).len() as int, w, k);
}

} // verus!
