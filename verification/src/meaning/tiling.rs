//! Which children of a directory a treemap shows, and in which order.

use vstd::prelude::*;
use crate::model;
use crate::model::{Kind, Node, NodeId, State, Tree};
use crate::order;
use crate::order::{ByColumn, Column};
use crate::sums;
use crate::treemap;

verus! {

proof fn lemma_drawable(nodes: Seq<Node>, ids: Seq<NodeId>, n: int)
    requires
        0 <= n <= ids.len(),
        ids.no_duplicates(),
    ensures
        treemap::drawable(nodes, ids, n).no_duplicates(),
        forall|id: NodeId| #[trigger]
            treemap::drawable(nodes, ids, n).contains(id) <==> ids.take(n).contains(id)
                && nodes[id as int].size.physical > 0,
    decreases n,
{
    if n > 0 {
        lemma_drawable(nodes, ids, n - 1);
        let d = treemap::drawable(nodes, ids, n - 1);
        let e = treemap::drawable(nodes, ids, n);
        let x = ids[n - 1];
        assert(ids.take(n) =~= ids.take(n - 1).push(x));
        assert(!ids.take(n - 1).contains(x)) by {
            if ids.take(n - 1).contains(x) {
                let head = ids.take(n - 1);
                let k = choose|k: int| 0 <= k < head.len() && head[k] == x;
                assert(ids[k] == ids[n - 1]);
            }
        }
        assert(!d.contains(x));
        assert forall|id: NodeId| #[trigger] e.contains(id) <==> ids.take(n).contains(id)
            && nodes[id as int].size.physical > 0 by {
            lemma_push_contains(ids.take(n - 1), x, id);
            lemma_push_contains(d, x, id);
            assert(d.contains(id) <==> ids.take(n - 1).contains(id)
                && nodes[id as int].size.physical > 0);
        }
        if nodes[x as int].size.physical > 0 {
            assert forall|i: int, j: int| 0 <= i < e.len() && 0 <= j < e.len() && i != j implies e[i]
                != e[j] by {
                if i == d.len() && e[j] == x {
                    assert(d[j] == x);
                }
                if j == d.len() && e[i] == x {
                    assert(d[i] == x);
                }
            }
        }
    } else {
        assert(treemap::drawable(nodes, ids, n) =~= Seq::empty());
    }
}

pub proof fn lemma_push_contains(s: Seq<NodeId>, x: NodeId, id: NodeId)
    ensures
        s.push(x).contains(id) <==> s.contains(id) || id == x,
{
    if s.contains(id) {
        let k = choose|k: int| 0 <= k < s.len() && s[k] == id;
        assert(s.push(x)[k] == id);
    }
    assert(s.push(x)[s.len() as int] == x);
    if s.push(x).contains(id) && id != x {
        let k = choose|k: int| 0 <= k < s.push(x).len() && s.push(x)[k] == id;
        assert(s[k] == id);
    }
}

pub proof fn lemma_block(nodes: Seq<Node>, p: int)
    requires
        nodes.len() <= u32::MAX,
        model::block_in(nodes, p),
    ensures
        model::block(nodes[p]).no_duplicates(),
        forall|id: NodeId| #[trigger]
            model::block(nodes[p]).contains(id) <==> nodes[p].first_child <= id
                < nodes[p].first_child + nodes[p].child_count && nodes[p].child_count > 0,
{
    let n = nodes[p];
    let b = model::block(n);
    assert forall|k: int| 0 <= k < b.len() implies #[trigger] b[k] == n.first_child + k by {
    }
    assert forall|id: NodeId| #[trigger] b.contains(id) <==> n.first_child <= id < n.first_child
        + n.child_count && n.child_count > 0 by {
        if n.first_child <= id < n.first_child + n.child_count {
            assert(b[id - n.first_child] == id);
        }
    }
}

/// The tiles of a directory are just those of its children that have bytes
/// allocated, each once, whatever their state and whatever is unknown below them;
/// and the larger stands before the smaller.
pub proof fn law_tiles_are_the_children_with_bytes(t: Tree, parent: NodeId, r: Seq<NodeId>)
    requires
        t.wf(),
        parent < t.nodes@.len(),
        model::block_in(t.nodes@, parent as int),
        ({
            let block = model::block(t.nodes@[parent as int]);
            order::same_ids(r, treemap::drawable(t.nodes@, block, block.len() as int))
        }),
        order::sorted((ByColumn { tree: &t, column: Column::Physical, descending: true }), r),
    ensures
        forall|id: NodeId| #[trigger]
            r.contains(id) <==> {
                let p = t.nodes@[parent as int];
                p.child_count > 0 && p.first_child <= id < p.first_child + p.child_count
                    && t.nodes@[id as int].size.physical > 0
            },
        r.no_duplicates(),
        forall|i: int, j: int|
            0 <= i < j < r.len() ==> t.nodes@[#[trigger] r[i] as int].size.physical
                >= t.nodes@[#[trigger] r[j] as int].size.physical,
{
    let block = model::block(t.nodes@[parent as int]);
    let d = treemap::drawable(t.nodes@, block, block.len() as int);
    lemma_block(t.nodes@, parent as int);
    lemma_drawable(t.nodes@, block, block.len() as int);
    assert(block.take(block.len() as int) =~= block);
    assert forall|id: NodeId| #[trigger] r.contains(id) <==> {
        let p = t.nodes@[parent as int];
        p.child_count > 0 && p.first_child <= id < p.first_child + p.child_count
            && t.nodes@[id as int].size.physical > 0
    } by {
        order::lemma_same_ids_contains(d, r, id);
        assert(d.contains(id) <==> block.contains(id) && t.nodes@[id as int].size.physical > 0);
    }
    lemma_same_ids_unique(d, r);
    let by = ByColumn { tree: &t, column: Column::Physical, descending: true };
    assert forall|i: int, j: int| 0 <= i < j < r.len() implies t.nodes@[
        #[trigger] r[i] as int
    ].size.physical >= t.nodes@[#[trigger] r[j] as int].size.physical by {
        assert(order::Ranking::may_precede(&by, r[i], r[j]));
    }
}

pub proof fn lemma_same_ids_unique(a: Seq<NodeId>, b: Seq<NodeId>)
    requires
        order::same_ids(a, b),
        a.no_duplicates(),
    ensures
        b.no_duplicates(),
{
    broadcast use vstd::seq_lib::group_to_multiset_ensures;

    a.lemma_multiset_has_no_duplicates();
    assert(forall|x: NodeId| b.to_multiset().contains(x) ==> b.to_multiset().count(x) == 1);
    b.lemma_multiset_has_no_duplicates_conv();
}

/// The same, the other way round.
pub proof fn lemma_same_ids_unique_back(a: Seq<NodeId>, b: Seq<NodeId>)
    requires
        order::same_ids(a, b),
        b.no_duplicates(),
    ensures
        a.no_duplicates(),
{
    lemma_same_ids_unique(b, a);
}

/// The bytes of a sequence of nodes, each of which stands in it once, are the sum
/// over them.
pub proof fn law_bytes_of_a_row_of_nodes(nodes: Seq<Node>, ids: Seq<NodeId>)
    requires
        ids.no_duplicates(),
    ensures
        treemap::physical_from(nodes, ids, 0) == sums::sum_over(
            ids.to_set(),
            |id: NodeId| nodes[id as int].size.physical as int,
        ),
{
    lemma_physical_split(nodes, ids, ids.len() as int);
    assert(ids.take(ids.len() as int) =~= ids);
    lemma_row(nodes, ids, ids.len() as int);
}

/// The bytes of the first `n`.
spec fn head_bytes(nodes: Seq<Node>, ids: Seq<NodeId>, n: int) -> int
    decreases n,
{
    if n <= 0 {
        0
    } else {
        head_bytes(nodes, ids, n - 1) + nodes[ids[n - 1] as int].size.physical
    }
}

proof fn lemma_physical_split(nodes: Seq<Node>, ids: Seq<NodeId>, n: int)
    requires
        0 <= n <= ids.len(),
    ensures
        treemap::physical_from(nodes, ids, 0) == head_bytes(nodes, ids, n)
            + treemap::physical_from(nodes, ids, n),
    decreases n,
{
    if n > 0 {
        lemma_physical_split(nodes, ids, n - 1);
    }
}

proof fn lemma_row(nodes: Seq<Node>, ids: Seq<NodeId>, n: int)
    requires
        ids.no_duplicates(),
        0 <= n <= ids.len(),
    ensures
        head_bytes(nodes, ids, n) == sums::sum_over(
            ids.take(n).to_set(),
            |id: NodeId| nodes[id as int].size.physical as int,
        ),
    decreases n,
{
    let f = |id: NodeId| nodes[id as int].size.physical as int;
    if n > 0 {
        lemma_row(nodes, ids, n - 1);
        sums::lemma_take_set(ids, n - 1);
        sums::lemma_sum_insert(ids.take(n - 1).to_set(), f, ids[n - 1]);
    } else {
        assert(ids.take(n).to_set() =~= Set::empty());
    }
}

/// The bytes from some place on are those of all but the ones before it.
pub proof fn law_bytes_from_a_place_on(nodes: Seq<Node>, ids: Seq<NodeId>, lo: int)
    requires
        ids.no_duplicates(),
        0 <= lo <= ids.len(),
    ensures
        ({
            let f = |id: NodeId| nodes[id as int].size.physical as int;
            treemap::physical_from(nodes, ids, lo) + sums::sum_over(ids.take(lo).to_set(), f)
                == sums::sum_over(ids.to_set(), f)
        }),
{
    law_bytes_of_a_row_of_nodes(nodes, ids);
    lemma_physical_split(nodes, ids, lo);
    lemma_row(nodes, ids, lo);
}

/// Nothing is lost between the children and the tiles: their bytes add up to the
/// same.
pub proof fn law_tiles_hold_all_bytes_of_the_children(t: Tree, parent: NodeId, r: Seq<NodeId>)
    requires
        t.wf(),
        parent < t.nodes@.len(),
        model::block_in(t.nodes@, parent as int),
        ({
            let block = model::block(t.nodes@[parent as int]);
            order::same_ids(r, treemap::drawable(t.nodes@, block, block.len() as int))
        }),
        order::sorted((ByColumn { tree: &t, column: Column::Physical, descending: true }), r),
    ensures
        treemap::physical_from(t.nodes@, r, 0) == treemap::physical_from(
            t.nodes@,
            model::block(t.nodes@[parent as int]),
            0,
        ),
{
    let nodes = t.nodes@;
    let block = model::block(nodes[parent as int]);
    let f = |id: NodeId| nodes[id as int].size.physical as int;
    law_tiles_are_the_children_with_bytes(t, parent, r);
    lemma_block(nodes, parent as int);
    law_bytes_of_a_row_of_nodes(nodes, r);
    law_bytes_of_a_row_of_nodes(nodes, block);
    vstd::seq_lib::seq_to_set_is_finite(block);
    vstd::seq_lib::seq_to_set_is_finite(r);
    assert forall|x: NodeId| #[trigger] r.to_set().contains(x) implies block.to_set().contains(
        x,
    ) by {
        assert(r.contains(x));
        assert(block.contains(x));
    }
    assert forall|x: NodeId| #[trigger]
        block.to_set().contains(x) && !r.to_set().contains(x) implies f(x) == 0 by {
        assert(block.contains(x));
        assert(!r.contains(x));
    }
    lemma_sum_without_zeros(r.to_set(), block.to_set(), f);
}

/// Terms that are zero can be left out of a sum.
pub proof fn lemma_sum_without_zeros<A>(s: Set<A>, t: Set<A>, f: spec_fn(A) -> int)
    requires
        t.finite(),
        s.subset_of(t),
        forall|x: A| #[trigger] t.contains(x) && !s.contains(x) ==> f(x) == 0,
    ensures
        sums::sum_over(s, f) == sums::sum_over(t, f),
    decreases t.len(),
{
    if t =~= s {
    } else {
        let x = choose|x: A| t.contains(x) && !s.contains(x);
        assert(t.contains(x) && !s.contains(x));
        sums::lemma_sum_remove(t, f, x);
        lemma_sum_without_zeros(s, t.remove(x), f);
    }
}

/// A block shows its node: the bytes allocated, those that only it holds and those
/// that a snapshot pins; and it is marked as a lower bound if anything below it is
/// unknown.
pub proof fn law_a_block_shows_its_node(n: Node, id: NodeId, depth: u32, container: bool)
    ensures
        ({
            let b = treemap::block_of(n, id, depth, container);
            &&& b.node == id
            &&& b.physical == n.size.physical
            &&& b.exclusive == n.size.exclusive
            &&& b.pinned == n.size.shared_snapshot
            &&& b.aggregated == 0
            &&& b.kind == (match n.kind {
                Kind::Dir => 0u8,
                Kind::File => 1u8,
                Kind::Symlink => 2u8,
                Kind::Other => 3u8,
            })
            &&& b.state == (match n.state {
                State::Scanned => 0u8,
                State::DeniedTcc => 1u8,
                State::DeniedPerm => 2u8,
                State::Error => 3u8,
                State::Skipped => 4u8,
            })
            &&& b.incomplete <==> n.unknown_below > 0
            &&& b.container == container
            &&& b.depth <= depth
            &&& b.depth == depth || (depth > 255 && b.depth == 255)
        }),
{
}

} // verus!
