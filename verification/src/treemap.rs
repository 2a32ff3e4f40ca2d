//! What a treemap of a directory shows, apart from where: which children are
//! drawn, in which order, and which are drawn together as one block.

use vstd::prelude::*;
use crate::meaning::tiling;
use crate::model;
use crate::model::{kind_code, state_code, Kind, Node, NodeId, Tree};
use crate::order;
use crate::order::{ByColumn, Column};

verus! {

/// Those of the first `n` ids whose nodes have bytes allocated.
pub open spec fn drawable(nodes: Seq<Node>, ids: Seq<NodeId>, n: int) -> Seq<NodeId>
    decreases n,
{
    if n <= 0 {
        Seq::empty()
    } else if nodes[ids[n - 1] as int].size.physical > 0 {
        drawable(nodes, ids, n - 1).push(ids[n - 1])
    } else {
        drawable(nodes, ids, n - 1)
    }
}

/// The children of a node that have bytes allocated, the largest first.
pub fn tiles(t: &Tree, parent: NodeId) -> (r: Vec<NodeId>)
    requires
        t.wf(),
        parent < t.nodes@.len(),
        model::block_in(t.nodes@, parent as int),
    ensures
        ({
            let block = model::block(t.nodes@[parent as int]);
            order::same_ids(r@, drawable(t.nodes@, block, block.len() as int))
        }),
        order::sorted((ByColumn { tree: t, column: Column::Physical, descending: true }), r@),
        forall|k: int| 0 <= k < r@.len() ==> (#[trigger] r@[k]) < t.nodes@.len(),
        r@.no_duplicates(),
        forall|id: NodeId| #[trigger]
            r@.contains(id) <==> {
                let p = t.nodes@[parent as int];
                p.child_count > 0 && p.first_child <= id < p.first_child + p.child_count
                    && t.nodes@[id as int].size.physical > 0
            },
{
    let all = t.child_ids(parent);
    let mut ids: Vec<NodeId> = Vec::new();
    let mut i: usize = 0;
    while i < all.len()
        invariant
            t.wf(),
            parent < t.nodes@.len(),
            model::block_in(t.nodes@, parent as int),
            all@ == model::block(t.nodes@[parent as int]),
            i <= all@.len(),
            ids@ == drawable(t.nodes@, all@, i as int),
            forall|k: int| 0 <= k < ids@.len() ==> (#[trigger] ids@[k]) < t.nodes@.len(),
        decreases all@.len() - i,
    {
        let c: NodeId = all[i];
        assert(c < t.nodes@.len());
        if t.node(c).size.physical > 0 {
            ids.push(c);
        }
        i = i + 1;
    }
    let ghost found = ids@;
    let by = ByColumn { tree: t, column: Column::Physical, descending: true };
    let r = order::sort(ids, &by);
    assert forall|k: int| 0 <= k < r@.len() implies (#[trigger] r@[k]) < t.nodes@.len() by {
        order::lemma_same_ids_contains(found, r@, r@[k]);
        assert(r@.contains(r@[k]));
        let j = choose|j: int| 0 <= j < found.len() && found[j] == r@[k];
        assert(found[j] < t.nodes@.len());
    }
    proof {
        tiling::law_tiles_are_the_children_with_bytes(*t, parent, r@);
    }
    r
}

/// The bytes allocated to the nodes with the ids from place `lo` on.
pub open spec fn physical_from(nodes: Seq<Node>, ids: Seq<NodeId>, lo: int) -> int
    decreases ids.len() - lo,
{
    if lo >= ids.len() {
        0
    } else {
        nodes[ids[lo] as int].size.physical + physical_from(nodes, ids, lo + 1)
    }
}

/// The bytes allocated to the nodes with the ids from place `lo` on: of all
/// tiles, or of those that are drawn as one block.
pub fn physical_sum(t: &Tree, ids: &[NodeId], lo: usize) -> (r: u128)
    requires
        lo <= ids@.len() <= u32::MAX,
        forall|k: int| 0 <= k < ids@.len() ==> (#[trigger] ids@[k]) < t.nodes@.len(),
    ensures
        r == physical_from(t.nodes@, ids@, lo as int),
{
    let mut sum: u128 = 0;
    let mut i: usize = ids.len();
    while i > lo
        invariant
            lo <= i <= ids@.len() <= u32::MAX,
            forall|k: int| 0 <= k < ids@.len() ==> (#[trigger] ids@[k]) < t.nodes@.len(),
            sum == physical_from(t.nodes@, ids@, i as int),
            sum <= (ids@.len() - i) * u64::MAX,
        decreases i,
    {
        i = i - 1;
        sum = sum + t.node(ids[i]).size.physical as u128;
    }
    sum
}

/// How many tiles are drawn by themselves where `head` are large enough, `laid`
/// blocks are drawn already and there may be `cap`: one has to be left for the
/// others together.
pub fn head_within(head: usize, laid: usize, cap: usize) -> (r: usize)
    ensures
        ({
            let budget = if laid <= cap {
                cap - laid
            } else {
                0
            };
            r == (if head < budget {
                head as int
            } else if budget > 0 {
                budget - 1
            } else {
                0
            })
        }),
{
    let budget: usize = cap.saturating_sub(laid);
    if head < budget {
        head
    } else {
        budget.saturating_sub(1)
    }
}

/// Whether a node is drawn with its children inside it, as far as that does not
/// depend on the room for it.
pub fn is_nestable(n: &Node, depth: u32, max_depth: u32) -> (r: bool)
    ensures
        r <==> n.kind is Dir && n.child_count > 0 && depth < max_depth,
{
    n.is_dir() && n.child_count > 0 && depth < max_depth
}

/// What a block shows.
#[derive(Clone, Copy, Debug, PartialEq, Eq, Structural)]
pub struct Block {
    pub node: u32,
    pub physical: u64,
    /// The bytes that only this object holds, and those that a snapshot pins.
    pub exclusive: u64,
    pub pinned: u64,
    /// Zero for a node. Else the block stands for so many children of `node`
    /// that are too small to be drawn.
    pub aggregated: u32,
    pub kind: u8,
    pub state: u8,
    /// The total is a lower bound.
    pub incomplete: bool,
    /// The children are drawn inside.
    pub container: bool,
    pub depth: u8,
}

pub open spec fn shown_depth(depth: u32) -> u8 {
    if depth <= 255 {
        depth as u8
    } else {
        255
    }
}

/// The block of a node.
pub open spec fn block_of(n: Node, id: NodeId, depth: u32, container: bool) -> Block {
    Block {
        node: id,
        physical: n.size.physical,
        exclusive: n.size.exclusive,
        pinned: n.size.shared_snapshot,
        aggregated: 0,
        kind: model::kind_number(n.kind),
        state: model::state_number(n.state),
        incomplete: n.unknown_below > 0,
        container,
        depth: shown_depth(depth),
    }
}

/// The block of a node.
pub fn leaf_block(t: &Tree, id: NodeId, depth: u32, container: bool) -> (r: Block)
    requires
        id < t.nodes@.len(),
    ensures
        r == block_of(t.nodes@[id as int], id, depth, container),
{
    let n = t.node(id);
    Block {
        node: id,
        physical: n.size.physical,
        exclusive: n.size.exclusive,
        pinned: n.size.shared_snapshot,
        aggregated: 0,
        kind: kind_code(n.kind()),
        state: state_code(n.state()),
        incomplete: n.unknown_below > 0,
        container,
        depth: if depth <= 255 {
            depth as u8
        } else {
            255
        },
    }
}

/// The block that stands for so many children of a node together.
pub fn tail_block(parent: NodeId, physical: u64, count: u32, depth: u32) -> (r: Block)
    ensures
        r == (Block {
            node: parent,
            physical,
            exclusive: 0,
            pinned: 0,
            aggregated: count,
            kind: model::kind_number(Kind::Other),
            state: 0,
            incomplete: false,
            container: false,
            depth: shown_depth(depth),
        }),
{
    Block {
        node: parent,
        physical,
        exclusive: 0,
        pinned: 0,
        aggregated: count,
        kind: kind_code(Kind::Other),
        state: 0,
        incomplete: false,
        container: false,
        depth: if depth <= 255 {
            depth as u8
        } else {
            255
        },
    }
}

/// How the tiles of a directory are drawn: the first `head` by themselves, and the
/// others, if there are any, together as one block.
#[derive(Clone, Copy, Debug, PartialEq, Eq, Structural)]
pub struct Cut {
    pub head: usize,
    /// The bytes allocated to the others.
    pub tail: u128,
    /// How many others there are.
    pub count: u32,
}

/// The cut where `large` tiles are large enough to be drawn, `laid` blocks are
/// drawn already and there may be `cap`.
pub fn cut(t: &Tree, ids: &[NodeId], large: usize, laid: usize, cap: usize) -> (r: Cut)
    requires
        large <= ids@.len() <= u32::MAX,
        forall|k: int| 0 <= k < ids@.len() ==> (#[trigger] ids@[k]) < t.nodes@.len(),
    ensures
        r.head <= large,
        laid + large < cap ==> r.head == large,
        laid < cap <= laid + large ==> r.head == cap - laid - 1,
        cap <= laid ==> r.head == 0,
        r.tail == physical_from(t.nodes@, ids@, r.head as int),
        r.count == ids@.len() - r.head,
{
    let head: usize = head_within(large, laid, cap);
    Cut { head, tail: physical_sum(t, ids, head), count: (ids.len() - head) as u32 }
}

/// The block of the `k`-th tile of a directory, and the node whose children are
/// to be drawn inside it, if any. `roomy` says whether there is room for them.
pub fn tile(
    t: &Tree,
    parent: NodeId,
    ids: &[NodeId],
    c: &Cut,
    k: usize,
    depth: u32,
    max_depth: u32,
    roomy: bool,
) -> (r: (Block, Option<NodeId>))
    requires
        c.head <= ids@.len(),
        c.tail <= u64::MAX,
        forall|j: int| 0 <= j < ids@.len() ==> (#[trigger] ids@[j]) < t.nodes@.len(),
    ensures
        k >= c.head ==> r.1 is None && r.0.node == parent && r.0.physical == c.tail
            && r.0.aggregated == c.count && r.0.depth == shown_depth(depth) && r.0.kind
            == model::kind_number(Kind::Other) && r.0.state == 0 && r.0.exclusive == 0
            && r.0.pinned == 0 && !r.0.incomplete && !r.0.container,
        k < c.head ==> {
            let id = ids@[k as int];
            let n = t.nodes@[id as int];
            let nested = roomy && n.kind is Dir && n.child_count > 0 && depth < max_depth;
            &&& r.0 == block_of(n, id, depth, nested)
            &&& r.1 == (if nested {
                Some(id)
            } else {
                None
            })
        },
{
    if k >= c.head {
        return (tail_block(parent, c.tail as u64, c.count, depth), None);
    }
    let id: NodeId = ids[k];
    let nested = roomy && is_nestable(t.node(id), depth, max_depth);
    (
        leaf_block(t, id, depth, nested),
        if nested {
            Some(id)
        } else {
            None
        },
    )
}

} // verus!
