//! What a walk makes of the whole listing of a directory, and of one that could not
//! be read.

use vstd::prelude::*;
use crate::model::{Node, NodeId, State, NO_NODE};
use crate::plan::Plan;
use crate::scan;
use crate::scan::Stats;
use crate::sys::attrlist::Entry;
use crate::walk;
use crate::walk::Book;
use super::walking;

verus! {

/// The entries of which a walk makes nodes, in their order.
pub open spec fn kept(entries: Seq<Entry>) -> Seq<Entry> {
    entries.filter(|e: Entry| walking::is_kept(e))
}

/// The object of entry `j` was met before it: at some other place, or earlier in the
/// same listing.
pub open spec fn was_met(seen: Set<(i64, u64)>, k: Seq<Entry>, j: int) -> bool {
    ||| seen.contains((k[j].realfsid, k[j].fileid))
    ||| exists|i: int|
        0 <= i < j && walking::may_return(#[trigger] k[i]) && k[i].realfsid == k[j].realfsid
            && k[i].fileid == k[j].fileid
}

/// Entry `j` is a directory to be read.
pub open spec fn is_new(
    seen: Set<(i64, u64)>,
    k: Seq<Entry>,
    j: int,
    path: Seq<u8>,
    plan: Plan,
) -> bool {
    walking::is_directory(k[j]) && !was_met(seen, k, j) && !walking::is_mounted(
        plan,
        walking::path_in(path, k[j].name@),
    )
}

/// What the node of an entry shows of it, whatever was met before.
pub open spec fn tells_of(n: Node, e: Entry, dir: NodeId) -> bool {
    &&& n.parent == dir
    &&& n.child_count == 0
    &&& n.unknown_below == 0
    &&& e.name@.len() < 0x1_0000 ==> n.name_len == e.name@.len()
    &&& e.error == 0 ==> {
        &&& n.kind is Dir <==> e.objtype == 2
        &&& n.kind is File <==> e.objtype == 1
        &&& n.kind is Symlink <==> e.objtype == 5
        &&& n.detail == 0
        &&& n.flags == e.flags
        &&& n.ext_flags == e.ext_flags & 0xff
        &&& n.mtime == e.mtime
    }
    &&& e.error != 0 ==> {
        &&& n.kind is Other
        &&& n.detail == e.error as i32
        &&& n.state is DeniedTcc <==> e.error == 1
        &&& n.state is DeniedPerm <==> e.error == 13
        &&& n.state is Error <==> e.error != 1 && e.error != 13
    }
}

/// The node of entry `j` counts as it should after all that was met before.
pub open spec fn is_weighed(
    n: Node,
    seen: Set<(i64, u64)>,
    k: Seq<Entry>,
    j: int,
    path: Seq<u8>,
    plan: Plan,
) -> bool {
    let e = k[j];
    let again = walking::is_file(e) && e.linkcount > 1 && was_met(seen, k, j);
    &&& n.hardlink_alias <==> again
    &&& walking::is_file(e) && !again ==> n.size == scan::split(e)
    &&& !walking::is_file(e) || again ==> n.size.logical == 0 && n.size.physical == 0
        && n.size.exclusive == 0 && n.size.shared_clones == 0 && n.size.shared_snapshot == 0
        && n.size.sparse_saving == 0
    &&& e.error == 0 ==> (n.state is Scanned <==> !walking::is_directory(e) || is_new(
        seen,
        k,
        j,
        path,
        plan,
    ))
    &&& walking::is_directory(e) && !is_new(seen, k, j, path, plan) ==> n.state == State::Skipped
}

/// The books after a listing tell of all that is in it.
pub open spec fn holds_all(
    a: Book,
    b: Book,
    k: Seq<Entry>,
    dir: NodeId,
    path: Seq<u8>,
    plan: Plan,
) -> bool {
    let first = b.nodes.len() as int;
    &&& a.nodes.len() == first + k.len()
    &&& forall|j: int|
        #![trigger a.nodes[first + j]]
        #![trigger k[j]]
        0 <= j < k.len() ==> tells_of(a.nodes[first + j], k[j], dir) && is_weighed(
            a.nodes[first + j],
            b.seen,
            k,
            j,
            path,
            plan,
        )
    &&& forall|id: (i64, u64)| #[trigger]
        a.seen.contains(id) <==> b.seen.contains(id) || exists|i: int|
            0 <= i < k.len() && walking::may_return(#[trigger] k[i]) && k[i].realfsid == id.0
                && k[i].fileid == id.1
    &&& forall|task: (NodeId, Seq<u8>)| #[trigger]
        a.stack.contains(task) <==> b.stack.contains(task) || exists|j: int|
            0 <= j < k.len() && #[trigger] is_new(b.seen, k, j, path, plan) && task.0 == first + j
                && task.1 == walking::path_in(path, k[j].name@)
}

proof fn lemma_task_pushed(s: Seq<(NodeId, Seq<u8>)>, x: (NodeId, Seq<u8>), t: (NodeId, Seq<u8>))
    ensures
        s.push(x).contains(t) <==> s.contains(t) || t == x,
{
    if s.contains(t) {
        let k = choose|k: int| 0 <= k < s.len() && s[k] == t;
        assert(s.push(x)[k] == t);
    }
    assert(s.push(x)[s.len() as int] == x);
    if s.push(x).contains(t) && t != x {
        let k = choose|k: int| 0 <= k < s.push(x).len() && s.push(x)[k] == t;
        assert(s[k] == t);
    }
}

/// What was met before an entry does not change with what comes behind it.
proof fn lemma_met_local(seen: Set<(i64, u64)>, k: Seq<Entry>, x: Entry, j: int)
    requires
        0 <= j < k.len(),
    ensures
        was_met(seen, k.push(x), j) == was_met(seen, k, j),
{
    let l = k.push(x);
    assert(forall|i: int| 0 <= i < k.len() ==> l[i] == k[i]);
    if was_met(seen, k, j) && !seen.contains((k[j].realfsid, k[j].fileid)) {
        let i = choose|i: int|
            0 <= i < j && walking::may_return(#[trigger] k[i]) && k[i].realfsid == k[j].realfsid
                && k[i].fileid == k[j].fileid;
        assert(walking::may_return(l[i]));
    }
    if was_met(seen, l, j) && !seen.contains((l[j].realfsid, l[j].fileid)) {
        let i = choose|i: int|
            0 <= i < j && walking::may_return(#[trigger] l[i]) && l[i].realfsid == l[j].realfsid
                && l[i].fileid == l[j].fileid;
        assert(walking::may_return(k[i]));
    }
}

#[verifier::rlimit(60)]
#[verifier::spinoff_prover]
proof fn lemma_one_more(
    a: Book,
    b: Book,
    k: Seq<Entry>,
    e: Entry,
    dir: NodeId,
    path: Seq<u8>,
    plan: Plan,
)
    requires
        holds_all(a, b, k, dir, path, plan),
        walking::is_kept(e),
        a.nodes.len() < u32::MAX,
    ensures
        holds_all(walk::with_entry(a, e, dir, path, plan), b, k.push(e), dir, path, plan),
{
    let c = walk::with_entry(a, e, dir, path, plan);
    let l = k.push(e);
    let n = k.len() as int;
    let first = b.nodes.len() as int;
    walking::law_every_entry_becomes_a_node(a, e, dir, path, plan);
    walking::law_every_new_directory_is_read(a, e, dir, path, plan);
    walking::law_a_file_counts_where_it_is_met_first(a, e, dir, path, plan);
    if e.error == 0 {
        walking::law_a_node_tells_of_its_entry(a, e, dir, path, plan);
    } else {
        lemma_unreadable(a, e, dir, path, plan);
    }
    assert forall|i: int| 0 <= i < n implies l[i] == k[i] by {
    }
    assert(l[n] == e);
    assert(a.seen.contains((e.realfsid, e.fileid)) == was_met(b.seen, l, n)) by {
        if a.seen.contains((e.realfsid, e.fileid)) && !b.seen.contains((e.realfsid, e.fileid)) {
            let i = choose|i: int|
                0 <= i < k.len() && walking::may_return(#[trigger] k[i]) && k[i].realfsid
                    == e.realfsid && k[i].fileid == e.fileid;
            assert(walking::may_return(l[i]));
        }
        if was_met(b.seen, l, n) && !b.seen.contains((e.realfsid, e.fileid)) {
            let i = choose|i: int|
                0 <= i < n && walking::may_return(#[trigger] l[i]) && l[i].realfsid
                    == l[n].realfsid && l[i].fileid == l[n].fileid;
            assert(walking::may_return(k[i]));
        }
    }
    assert forall|j: int| 0 <= j < n implies is_new(b.seen, l, j, path, plan) == #[trigger] is_new(
        b.seen,
        k,
        j,
        path,
        plan,
    ) by {
        lemma_met_local(b.seen, k, e, j);
    }
    assert forall|j: int|
        #![trigger c.nodes[first + j]]
        #![trigger l[j]]
        0 <= j < l.len() implies tells_of(c.nodes[first + j], l[j], dir) && is_weighed(
        c.nodes[first + j],
        b.seen,
        l,
        j,
        path,
        plan,
    ) by {
        if j < n {
            assert(c.nodes[first + j] == a.nodes[first + j]);
            assert(k[j] == l[j]);
            assert(is_weighed(a.nodes[first + j], b.seen, k, j, path, plan));
            lemma_met_local(b.seen, k, e, j);
        } else {
            assert(first + j == a.nodes.len());
        }
    }
    assert forall|id: (i64, u64)| #[trigger] c.seen.contains(id) <==> b.seen.contains(id)
        || exists|i: int|
        0 <= i < l.len() && walking::may_return(#[trigger] l[i]) && l[i].realfsid == id.0
            && l[i].fileid == id.1 by {
        walking::law_what_may_return_is_remembered(a, e, dir, path, plan, id);
        if a.seen.contains(id) && !b.seen.contains(id) {
            let i = choose|i: int|
                0 <= i < k.len() && walking::may_return(#[trigger] k[i]) && k[i].realfsid == id.0
                    && k[i].fileid == id.1;
            assert(walking::may_return(l[i]));
        }
        if walking::may_return(e) && id.0 == e.realfsid && id.1 == e.fileid {
            assert(walking::may_return(l[n]));
        }
        if exists|i: int|
            0 <= i < l.len() && walking::may_return(#[trigger] l[i]) && l[i].realfsid == id.0
                && l[i].fileid == id.1 {
            let i = choose|i: int|
                0 <= i < l.len() && walking::may_return(#[trigger] l[i]) && l[i].realfsid == id.0
                    && l[i].fileid == id.1;
            if i < n {
                assert(walking::may_return(k[i]));
            }
        }
    }
    assert forall|task: (NodeId, Seq<u8>)| #[trigger] c.stack.contains(task) <==> b.stack.contains(
        task,
    ) || exists|j: int|
        0 <= j < l.len() && #[trigger] is_new(b.seen, l, j, path, plan) && task.0 == first + j
            && task.1 == walking::path_in(path, l[j].name@) by {
        let mine = ((first + n) as NodeId, walking::path_in(path, e.name@));
        lemma_task_pushed(a.stack, mine, task);
        assert(is_new(b.seen, l, n, path, plan) == (c.stack == a.stack.push(mine)
            && walking::is_directory(e) && !was_met(b.seen, l, n) && !walking::is_mounted(
            plan,
            walking::path_in(path, e.name@),
        )));
        assert(a.stack.contains(task) <==> b.stack.contains(task) || exists|j: int|
            0 <= j < k.len() && #[trigger] is_new(b.seen, k, j, path, plan) && task.0 == first + j
                && task.1 == walking::path_in(path, k[j].name@));
        if a.stack.contains(task) && !b.stack.contains(task) {
            let j = choose|j: int|
                0 <= j < k.len() && #[trigger] is_new(b.seen, k, j, path, plan) && task.0 == first
                    + j && task.1 == walking::path_in(path, k[j].name@);
            assert(is_new(b.seen, l, j, path, plan));
        }
        if exists|j: int|
            0 <= j < l.len() && #[trigger] is_new(b.seen, l, j, path, plan) && task.0 == first + j
                && task.1 == walking::path_in(path, l[j].name@) {
            let j = choose|j: int|
                0 <= j < l.len() && #[trigger] is_new(b.seen, l, j, path, plan) && task.0 == first
                    + j && task.1 == walking::path_in(path, l[j].name@);
            if j < n {
                assert(is_new(b.seen, k, j, path, plan));
            }
        }
    }
}

proof fn lemma_unreadable(b: Book, e: Entry, dir: NodeId, path: Seq<u8>, plan: Plan)
    requires
        walking::is_kept(e),
        e.error != 0,
    ensures
        ({
            let n = walk::with_entry(b, e, dir, path, plan).nodes[b.nodes.len() as int];
            &&& n.kind is Other
            &&& n.detail == e.error as i32
            &&& n.state is DeniedTcc <==> e.error == 1
            &&& n.state is DeniedPerm <==> e.error == 13
            &&& n.state is Error <==> e.error != 1 && e.error != 13
        }),
{
    let z = Book { stats: Stats::none(), ..b };
    walking::law_an_unreadable_entry_is_kept(z, e, dir, path, plan);
}

proof fn lemma_listed(
    b: Book,
    entries: Seq<Entry>,
    n: int,
    dir: NodeId,
    path: Seq<u8>,
    plan: Plan,
)
    requires
        0 <= n <= entries.len(),
        b.nodes.len() + n <= u32::MAX,
    ensures
        holds_all(
            walk::with_entries(b, entries, n, dir, path, plan),
            b,
            kept(entries.take(n)),
            dir,
            path,
            plan,
        ),
        kept(entries.take(n)).len() <= n,
        ({
            let a = walk::with_entries(b, entries, n, dir, path, plan);
            forall|i: int| 0 <= i < b.nodes.len() ==> #[trigger] a.nodes[i] == b.nodes[i]
        }),
    decreases n,
{
    reveal(Seq::filter);
    if n > 0 {
        lemma_listed(b, entries, n - 1, dir, path, plan);
        let a = walk::with_entries(b, entries, n - 1, dir, path, plan);
        let e = entries[n - 1];
        assert(entries.take(n).drop_last() =~= entries.take(n - 1));
        walking::law_every_entry_becomes_a_node(a, e, dir, path, plan);
        if walking::is_kept(e) {
            lemma_one_more(a, b, kept(entries.take(n - 1)), e, dir, path, plan);
        }
    } else {
        assert(entries.take(n) =~= Seq::empty());
    }
}

/// A listing puts each of its entries, but for the empty name, the dot and the two
/// dots, into the tree once and in its order, behind all that was there. Each tells
/// of its entry. Of an object that is met again, at another place or in the same
/// listing, only the first counts and is read; every directory that is met for the
/// first time, and is no mount point of the volume group, waits to be read. The
/// directory names the new nodes as its children. If the listing broke off, the
/// directory bears the error.
pub proof fn law_a_listing_is_taken_in_whole(
    b: Book,
    entries: Seq<Entry>,
    broken: Option<i32>,
    dir: NodeId,
    path: Seq<u8>,
    plan: Plan,
)
    requires
        dir < b.nodes.len(),
        b.nodes.len() + entries.len() <= u32::MAX,
    ensures
        ({
            let a = walk::with_listing(b, entries, broken, dir, path, plan);
            let k = kept(entries);
            let d = a.nodes[dir as int];
            let was = b.nodes[dir as int];
            &&& holds_all(a, b, k, dir, path, plan)
            &&& forall|i: int|
                0 <= i < b.nodes.len() && i != dir ==> #[trigger] a.nodes[i] == b.nodes[i]
            &&& d.child_count == k.len()
            &&& k.len() > 0 ==> d.first_child == b.nodes.len()
            &&& k.len() == 0 ==> d.first_child == NO_NODE
            &&& broken is None ==> d.state == was.state && d.detail == was.detail
            &&& broken matches Some(errno) ==> {
                &&& d.detail == errno
                &&& d.state is DeniedTcc <==> errno == 1
                &&& d.state is DeniedPerm <==> errno == 13
                &&& d.state is Error <==> errno != 1 && errno != 13
            }
            &&& d.kind == was.kind && d.size == was.size && d.parent == was.parent && d.flags
                == was.flags && d.ext_flags == was.ext_flags && d.mtime == was.mtime
                && d.name_off == was.name_off && d.name_len == was.name_len && d.unknown_below
                == was.unknown_below && d.hardlink_alias == was.hardlink_alias
        }),
{
    let n = entries.len() as int;
    lemma_listed(b, entries, n, dir, path, plan);
    assert(entries.take(n) =~= entries);
    let c = walk::with_entries(b, entries, n, dir, path, plan);
    let a = walk::with_listing(b, entries, broken, dir, path, plan);
    let k = kept(entries);
    let first = b.nodes.len() as int;
    assert(c.nodes[dir as int] == b.nodes[dir as int]);
    assert forall|j: int|
        #![trigger a.nodes[first + j]]
        #![trigger k[j]]
        0 <= j < k.len() implies tells_of(a.nodes[first + j], k[j], dir) && is_weighed(
        a.nodes[first + j],
        b.seen,
        k,
        j,
        path,
        plan,
    ) by {
        assert(a.nodes[first + j] == c.nodes[first + j]);
    }
    assert forall|i: int| 0 <= i < b.nodes.len() && i != dir implies #[trigger] a.nodes[i]
        == b.nodes[i] by {
        assert(a.nodes[i] == c.nodes[i]);
        assert(c.nodes[i] == b.nodes[i]);
    }
}

/// The entries of a listing are taken in one after the other: it makes no difference
/// whether they come at once or in two parts.
pub proof fn law_entries_are_taken_in_one_by_one(
    b: Book,
    x: Seq<Entry>,
    y: Seq<Entry>,
    dir: NodeId,
    path: Seq<u8>,
    plan: Plan,
)
    ensures
        walk::with_entries(b, x + y, (x + y).len() as int, dir, path, plan) == walk::with_entries(
            walk::with_entries(b, x, x.len() as int, dir, path, plan),
            y,
            y.len() as int,
            dir,
            path,
            plan,
        ),
        y.len() == 1 ==> walk::with_entries(b, y, 1, dir, path, plan) == walk::with_entry(
            b,
            y[0],
            dir,
            path,
            plan,
        ),
        walk::with_entries(b, y, 0, dir, path, plan) == b,
    decreases y.len(),
{
    reveal_with_fuel(walk::with_entries, 2);
    let all = x + y;
    if y.len() > 0 {
        let f = y.drop_last();
        law_entries_are_taken_in_one_by_one(b, x, f, dir, path, plan);
        lemma_entries_local(b, all, x + f, all.len() - 1, dir, path, plan);
        let c = walk::with_entries(b, x, x.len() as int, dir, path, plan);
        lemma_entries_local(c, y, f, y.len() - 1, dir, path, plan);
    } else {
        assert(all =~= x);
    }
}

proof fn lemma_entries_local(
    b: Book,
    x: Seq<Entry>,
    y: Seq<Entry>,
    n: int,
    dir: NodeId,
    path: Seq<u8>,
    plan: Plan,
)
    requires
        n <= x.len(),
        n <= y.len(),
        forall|i: int| 0 <= i < n ==> x[i] == y[i],
    ensures
        walk::with_entries(b, x, n, dir, path, plan) == walk::with_entries(
            b,
            y,
            n,
            dir,
            path,
            plan,
        ),
    decreases n,
{
    if n > 0 {
        lemma_entries_local(b, x, y, n - 1, dir, path, plan);
    }
}

/// A directory that was read counts once, and a listing that broke off is one error
/// more. Otherwise the counts are those of the entries.
pub proof fn law_a_listing_counts_its_directory(
    b: Book,
    entries: Seq<Entry>,
    broken: Option<i32>,
    dir: NodeId,
    path: Seq<u8>,
    plan: Plan,
)
    ensures
        ({
            let c = walk::with_entries(b, entries, entries.len() as int, dir, path, plan);
            let a = walk::with_listing(b, entries, broken, dir, path, plan);
            &&& c.stats.dirs < u64::MAX ==> a.stats.dirs == c.stats.dirs + 1
            &&& c.stats.errors < u64::MAX ==> a.stats.errors - c.stats.errors == walking::counts(
                broken is Some,
            )
            &&& a.stats == Stats { dirs: a.stats.dirs, errors: a.stats.errors, ..c.stats }
            &&& a.names == c.names && a.families == c.families && a.clone_of == c.clone_of
                && a.physical == c.physical
        }),
{
}

/// A directory that could not be read bears the error and counts under who refused
/// it; nothing else changes.
pub proof fn law_a_failure_is_kept(b: Book, d: NodeId, errno: i32)
    requires
        d < b.nodes.len(),
        b.stats.at_most(u64::MAX - 1),
    ensures
        ({
            let a = walk::with_failure(b, d, errno);
            let n = a.nodes[d as int];
            let was = b.nodes[d as int];
            &&& n.detail == errno
            &&& n.state is DeniedTcc <==> errno == 1
            &&& n.state is DeniedPerm <==> errno == 13
            &&& n.state is Error <==> errno != 1 && errno != 13
            &&& n == Node { state: n.state, detail: n.detail, ..was }
            &&& a.nodes.len() == b.nodes.len()
            &&& forall|i: int|
                0 <= i < b.nodes.len() && i != d ==> #[trigger] a.nodes[i] == b.nodes[i]
            &&& a.stats.denied_tcc - b.stats.denied_tcc == walking::counts(errno == 1)
            &&& a.stats.denied_perm - b.stats.denied_perm == walking::counts(errno == 13)
            &&& a.stats.errors - b.stats.errors == walking::counts(errno != 1 && errno != 13)
            &&& a.stats == Stats {
                denied_tcc: a.stats.denied_tcc,
                denied_perm: a.stats.denied_perm,
                errors: a.stats.errors,
                ..b.stats
            }
            &&& a == Book { nodes: a.nodes, stats: a.stats, ..b }
        }),
{
}

/// A mark changes the state and the detail of one node, and nothing else.
pub proof fn law_a_mark_changes_one_node(b: Book, d: NodeId, state: State, detail: i32)
    requires
        d < b.nodes.len(),
    ensures
        ({
            let a = walk::with_mark(b, d, state, detail);
            let n = a.nodes[d as int];
            &&& n.state == state && n.detail == detail
            &&& n == Node { state: n.state, detail: n.detail, ..b.nodes[d as int] }
            &&& a.nodes.len() == b.nodes.len()
            &&& forall|i: int|
                0 <= i < b.nodes.len() && i != d ==> #[trigger] a.nodes[i] == b.nodes[i]
            &&& a == Book { nodes: a.nodes, ..b }
        }),
{
}

/// A walk begins with one node, a directory with the name of the root, which waits
/// to be read; nothing has been met or counted.
pub proof fn law_a_walk_begins_at_the_root(root: Seq<u8>)
    ensures
        ({
            let b = walk::first_book(root);
            &&& b.nodes.len() == 1
            &&& b.nodes[0].kind is Dir && b.nodes[0].state is Scanned
            &&& b.nodes[0].parent == NO_NODE && b.nodes[0].child_count == 0
            &&& b.names == root
            &&& b.stack == seq![(0u32, root)]
            &&& b.seen =~= Set::empty()
            &&& b.families.dom() =~= Set::empty()
            &&& b.clone_of.dom() =~= Set::empty()
            &&& b.physical == 0
            &&& b.stats.at_most(0)
            &&& b.stats.skipped_mounts == 0 && b.stats.elapsed_nanos == 0
            &&& b.nodes[0].size.logical == 0 && b.nodes[0].size.physical == 0
            &&& b.nodes[0].size.exclusive == 0 && b.nodes[0].size.shared_clones == 0
            &&& b.nodes[0].size.shared_snapshot == 0 && b.nodes[0].size.sparse_saving == 0
            &&& b.nodes[0].unknown_below == 0 && b.nodes[0].detail == 0
            &&& b.nodes[0].name_off == 0
            &&& root.len() < 0x1_0000 ==> b.nodes[0].name_len == root.len()
        }),
{
}

} // verus!
