//! The orders in which nodes are listed, and which of them a list holds.

use vstd::prelude::*;
use crate::ffi;
use crate::ffi::DsScan;
use crate::model;
use crate::model::{Kind, Node, NodeId, Tree};
use crate::order;
use crate::order::{ByColumn, Column};
use crate::report;
use super::tiling;

verus! {

/// Names go by their bytes: one comes before another if it is the beginning of it,
/// or has the smaller byte where they first differ.
pub proof fn law_names_go_by_their_bytes(a: Seq<u8>, b: Seq<u8>)
    ensures
        order::bytes_le(a, b) <==> (a.len() <= b.len() && a == b.take(a.len() as int)) || exists|
            k: int,
        |
            0 <= k < a.len() && k < b.len() && a.take(k) == #[trigger] b.take(k) && a[k] < b[k],
{
    lemma_bytes_le(a, b, 0);
    if a.len() <= b.len() && a == b.take(a.len() as int) {
        assert forall|j: int| 0 <= j < a.len() implies a[j] == b[j] by {
            assert(b.take(a.len() as int)[j] == b[j]);
        }
    }
    if exists|k: int|
        0 <= k < a.len() && k < b.len() && a.take(k) == #[trigger] b.take(k) && a[k] < b[k] {
        let k = choose|k: int|
            0 <= k < a.len() && k < b.len() && a.take(k) == #[trigger] b.take(k) && a[k] < b[k];
        assert forall|j: int| 0 <= j < k implies a[j] == b[j] by {
            assert(a.take(k)[j] == b.take(k)[j]);
        }
        assert(differs_at(a, b, 0, k));
    }
    if order::bytes_le(a, b) {
        if a.len() <= b.len() && forall|j: int| 0 <= j < a.len() ==> a[j] == b[j] {
            assert(a =~= b.take(a.len() as int));
        } else {
            let k = choose|k: int| differs_at(a, b, 0, k);
            assert(a.take(k) =~= b.take(k));
        }
    }
}

/// From `from` on, the two first differ at `k`, where the first has the smaller byte.
spec fn differs_at(a: Seq<u8>, b: Seq<u8>, from: int, k: int) -> bool {
    from <= k && k < a.len() && k < b.len() && a[k] < b[k] && forall|j: int|
        from <= j < k ==> a[j] == b[j]
}

proof fn lemma_bytes_le(a: Seq<u8>, b: Seq<u8>, from: int)
    requires
        0 <= from,
    ensures
        order::bytes_le_from(a, b, from) <==> ((a.len() <= b.len() || from >= a.len()) && forall|
            j: int,
        |
            from <= j < a.len() ==> a[j] == b[j]) || exists|k: int| differs_at(a, b, from, k),
    decreases a.len() - from,
{
    if from < a.len() && from < b.len() {
        if a[from] == b[from] {
            let next = from + 1;
            lemma_bytes_le(a, b, next);
            if exists|k: int| differs_at(a, b, next, k) {
                let k = choose|k: int| differs_at(a, b, next, k);
                assert(differs_at(a, b, from, k));
            }
            if exists|k: int| differs_at(a, b, from, k) {
                let k = choose|k: int| differs_at(a, b, from, k);
                assert(differs_at(a, b, next, k));
            }
        } else {
            if a[from] < b[from] {
                assert(differs_at(a, b, from, from));
            }
            if exists|k: int| differs_at(a, b, from, k) {
                let k = choose|k: int| differs_at(a, b, from, k);
                assert(k == from);
            }
        }
    }
}

/// The first node of two stands before the second in the list by the column with
/// this number: 1 for the bytes owned alone, 2 for the apparent size, 3 for the
/// name, 4 for the time of the last change, and any other for the bytes allocated.
pub open spec fn is_behind_or_equal(t: Tree, sort: i32, a: NodeId, b: NodeId) -> bool {
    let x = t.nodes@[a as int];
    let y = t.nodes@[b as int];
    if sort == 1 {
        x.size.exclusive <= y.size.exclusive
    } else if sort == 2 {
        x.size.logical <= y.size.logical
    } else if sort == 3 {
        order::bytes_le(t.name_of(a as int), t.name_of(b as int))
    } else if sort == 4 {
        x.mtime <= y.mtime
    } else {
        x.size.physical <= y.size.physical
    }
}

/// The list of the children of a node holds each of them once and nothing else, and
/// goes by the column asked for, upwards or downwards. Children that are equal in
/// it go by their ids, in the same direction.
pub proof fn law_children_are_listed_in_order(
    sc: DsScan,
    node: NodeId,
    sort: i32,
    descending: bool,
    ids: Seq<NodeId>,
)
    requires
        sc.r.tree.wf(),
        ffi::children_in_order(sc, node, sort, descending, ids),
        node < sc.r.tree.nodes@.len(),
        model::block_in(sc.r.tree.nodes@, node as int),
    ensures
        ({
            let t = sc.r.tree;
            let n = t.nodes@[node as int];
            &&& ids.no_duplicates()
            &&& ids.len() == n.child_count
            &&& forall|id: NodeId| #[trigger]
                ids.contains(id) <==> n.child_count > 0 && n.first_child <= id < n.first_child
                    + n.child_count
            &&& forall|i: int, j: int|
                0 <= i < j < ids.len() ==> {
                    let a = #[trigger] ids[i];
                    let b = #[trigger] ids[j];
                    &&& !descending ==> is_behind_or_equal(t, sort, a, b) && (is_behind_or_equal(
                        t,
                        sort,
                        b,
                        a,
                    ) ==> a <= b)
                    &&& descending ==> is_behind_or_equal(t, sort, b, a) && (is_behind_or_equal(
                        t,
                        sort,
                        a,
                        b,
                    ) ==> b <= a)
                }
        }),
{
    let t = sc.r.tree;
    let block = model::block(t.nodes@[node as int]);
    tiling::lemma_block(t.nodes@, node as int);
    tiling::lemma_same_ids_unique_back(ids, block);
    assert forall|id: NodeId| #[trigger] ids.contains(id) <==> block.contains(id) by {
        order::lemma_same_ids_contains(ids, block, id);
    }
    order::lemma_same_ids_contains(ids, block, 0);
    let by = ByColumn { tree: &sc.r.tree, column: ffi::column(sort), descending };
    assert forall|i: int, j: int| 0 <= i < j < ids.len() implies {
        let a = #[trigger] ids[i];
        let b = #[trigger] ids[j];
        &&& !descending ==> is_behind_or_equal(t, sort, a, b) && (is_behind_or_equal(t, sort, b, a)
            ==> a <= b)
        &&& descending ==> is_behind_or_equal(t, sort, b, a) && (is_behind_or_equal(t, sort, a, b)
            ==> b <= a)
    } by {
        assert(order::Ranking::may_precede(&by, ids[i], ids[j]));
    }
}

proof fn lemma_of_kind(nodes: Seq<Node>, kind: Kind, n: int)
    requires
        0 <= n <= nodes.len(),
        nodes.len() <= u32::MAX,
    ensures
        report::of_kind(nodes, kind, n).no_duplicates(),
        forall|id: NodeId| #[trigger]
            report::of_kind(nodes, kind, n).contains(id) <==> id < n && nodes[id as int].kind
                == kind,
    decreases n,
{
    if n > 0 {
        lemma_of_kind(nodes, kind, n - 1);
        let d = report::of_kind(nodes, kind, n - 1);
        let e = report::of_kind(nodes, kind, n);
        let x = (n - 1) as NodeId;
        assert(!d.contains(x));
        assert forall|id: NodeId| #[trigger] e.contains(id) <==> id < n && nodes[id as int].kind
            == kind by {
            tiling::lemma_push_contains(d, x, id);
            assert(d.contains(id) <==> id < n - 1 && nodes[id as int].kind == kind);
        }
        if nodes[n - 1].kind == kind {
            assert forall|i: int, j: int| 0 <= i < e.len() && 0 <= j < e.len() && i != j implies e[i]
                != e[j] by {
                if i == d.len() && e[j] == x {
                    assert(d[j] == x);
                }
                if j == d.len() && e[i] == x {
                    assert(d[i] == x);
                }
            }
        }
    }
}

/// The list of the largest nodes of a kind holds only nodes of the kind, each once,
/// the larger before the smaller; nothing that it leaves out is larger than what it
/// holds; and it leaves nothing out unless it is full.
pub proof fn law_the_largest_come_first(
    t: Tree,
    kind: Kind,
    all: Seq<NodeId>,
    top: usize,
    r: Seq<NodeId>,
)
    requires
        t.wf(),
        order::same_ids(all, report::of_kind(t.nodes@, kind, t.nodes@.len() as int)),
        order::sorted((ByColumn { tree: &t, column: Column::Physical, descending: true }), all),
        r == all.take(if top <= all.len() {
            top as int
        } else {
            all.len() as int
        }),
    ensures
        r.len() <= top,
        r.no_duplicates(),
        forall|k: int|
            0 <= k < r.len() ==> (#[trigger] r[k]) < t.nodes@.len() && t.nodes@[r[k] as int].kind
                == kind,
        forall|i: int, j: int|
            0 <= i < j < r.len() ==> t.nodes@[#[trigger] r[i] as int].size.physical
                >= t.nodes@[#[trigger] r[j] as int].size.physical,
        forall|id: NodeId, k: int|
            #![trigger r.contains(id), r[k]]
            id < t.nodes@.len() && t.nodes@[id as int].kind == kind && !r.contains(id) && 0 <= k
                < r.len() ==> t.nodes@[id as int].size.physical
                <= t.nodes@[r[k] as int].size.physical,
        forall|id: NodeId|
            #![trigger r.contains(id)]
            id < t.nodes@.len() && t.nodes@[id as int].kind == kind && !r.contains(id) ==> r.len()
                == top,
{
    let found = report::of_kind(t.nodes@, kind, t.nodes@.len() as int);
    let by = ByColumn { tree: &t, column: Column::Physical, descending: true };
    lemma_of_kind(t.nodes@, kind, t.nodes@.len() as int);
    tiling::lemma_same_ids_unique_back(all, found);
    assert forall|id: NodeId| #[trigger] all.contains(id) <==> found.contains(id) by {
        order::lemma_same_ids_contains(all, found, id);
    }
    assert forall|i: int, j: int| 0 <= i < j < all.len() implies t.nodes@[
        #[trigger] all[i] as int
    ].size.physical >= t.nodes@[#[trigger] all[j] as int].size.physical by {
        assert(order::Ranking::may_precede(&by, all[i], all[j]));
    }
    assert forall|k: int| 0 <= k < r.len() implies (#[trigger] r[k]) < t.nodes@.len() && t.nodes@[
        r[k] as int
    ].kind == kind by {
        assert(all.contains(all[k]));
        assert(found.contains(all[k]));
    }
    assert forall|id: NodeId|
        #![trigger r.contains(id)]
        id < t.nodes@.len() && t.nodes@[id as int].kind == kind && !r.contains(id) implies r.len()
        == top && exists|m: int| r.len() <= m < all.len() && #[trigger] all[m] == id by {
        assert(found.contains(id));
        assert(all.contains(id));
        let m = choose|m: int| 0 <= m < all.len() && all[m] == id;
        if m < r.len() {
            assert(r[m] == id);
        }
    }
    assert forall|id: NodeId, k: int|
        #![trigger r.contains(id), r[k]]
        id < t.nodes@.len() && t.nodes@[id as int].kind == kind && !r.contains(id) && 0 <= k
            < r.len() implies t.nodes@[id as int].size.physical
        <= t.nodes@[r[k] as int].size.physical by {
        let m = choose|m: int| r.len() <= m < all.len() && #[trigger] all[m] == id;
        assert(all[k] == r[k]);
    }
}

/// A window shows the items from its place on, each at its distance, as many as
/// there are and as it has room for.
pub proof fn law_what_a_window_shows(ids: Seq<NodeId>, offset: int, cap: int)
    requires
        0 <= offset,
        0 <= cap,
    ensures
        ({
            let w = ffi::window(ids, offset, cap);
            &&& w.len() <= cap
            &&& forall|k: int|
                0 <= k < w.len() ==> offset + k < ids.len() && #[trigger] w[k] == ids[offset + k]
            &&& w.len() < cap ==> offset + w.len() >= ids.len()
        }),
{
}

} // verus!
