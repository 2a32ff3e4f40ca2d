//! What the sums that a tree shows are sums of.

use vstd::prelude::*;
use crate::laws;
use crate::model;
use crate::model::{Node, Totals};
use crate::sums;
use super::walking;

verus! {

/// The ids from `lo` up to `hi`.
pub open spec fn span(lo: int, hi: int) -> Set<int> {
    Set::new(|j: int| lo <= j < hi)
}

proof fn lemma_span(lo: int, hi: int)
    requires
        lo <= hi,
    ensures
        span(lo, hi).finite(),
        lo < hi ==> span(lo, hi) == span(lo + 1, hi).insert(lo),
        lo < hi ==> span(lo, hi) == span(lo, hi - 1).insert(hi - 1),
        lo == hi ==> span(lo, hi) == Set::<int>::empty(),
    decreases hi - lo,
{
    if lo < hi {
        lemma_span(lo + 1, hi);
        assert(span(lo, hi) =~= span(lo + 1, hi).insert(lo));
        assert(span(lo, hi) =~= span(lo, hi - 1).insert(hi - 1));
    } else {
        assert(span(lo, hi) =~= Set::empty());
    }
}

/// The sums over the nodes in `s`, each sum by itself.
pub open spec fn added(nodes: Seq<Node>, s: Set<int>, unknown: spec_fn(int) -> int) -> Totals {
    Totals {
        logical: sums::sum_over(s, |j: int| nodes[j].size.logical as int),
        physical: sums::sum_over(s, |j: int| nodes[j].size.physical as int),
        exclusive: sums::sum_over(s, |j: int| nodes[j].size.exclusive as int),
        shared_clones: sums::sum_over(s, |j: int| nodes[j].size.shared_clones as int),
        shared_snapshot: sums::sum_over(s, |j: int| nodes[j].size.shared_snapshot as int),
        sparse_saving: sums::sum_over(s, |j: int| nodes[j].size.sparse_saving as int),
        unknown: sums::sum_over(s, unknown),
    }
}

/// One more node.
proof fn lemma_added(nodes: Seq<Node>, s: Set<int>, unknown: spec_fn(int) -> int, x: int)
    requires
        s.finite(),
        !s.contains(x),
    ensures
        ({
            let a = added(nodes, s, unknown);
            let b = added(nodes, s.insert(x), unknown);
            let z = nodes[x].size;
            &&& b.logical == a.logical + z.logical
            &&& b.physical == a.physical + z.physical
            &&& b.exclusive == a.exclusive + z.exclusive
            &&& b.shared_clones == a.shared_clones + z.shared_clones
            &&& b.shared_snapshot == a.shared_snapshot + z.shared_snapshot
            &&& b.sparse_saving == a.sparse_saving + z.sparse_saving
            &&& b.unknown == a.unknown + unknown(x)
        }),
{
    sums::lemma_sum_insert(s, |j: int| nodes[j].size.logical as int, x);
    sums::lemma_sum_insert(s, |j: int| nodes[j].size.physical as int, x);
    sums::lemma_sum_insert(s, |j: int| nodes[j].size.exclusive as int, x);
    sums::lemma_sum_insert(s, |j: int| nodes[j].size.shared_clones as int, x);
    sums::lemma_sum_insert(s, |j: int| nodes[j].size.shared_snapshot as int, x);
    sums::lemma_sum_insert(s, |j: int| nodes[j].size.sparse_saving as int, x);
    sums::lemma_sum_insert(s, unknown, x);
}

proof fn lemma_shown_sum(nodes: Seq<Node>, lo: int, hi: int)
    requires
        lo <= hi,
    ensures
        laws::shown_sum(nodes, lo, hi) == added(
            nodes,
            span(lo, hi),
            |j: int| nodes[j].unknown_below as int,
        ),
    decreases hi - lo,
{
    let u = |j: int| nodes[j].unknown_below as int;
    lemma_span(lo, hi);
    if lo < hi {
        lemma_shown_sum(nodes, lo + 1, hi);
        lemma_span(lo + 1, hi);
        lemma_added(nodes, span(lo + 1, hi), u, lo);
    }
}

/// Each sum that a node shows is its own figure and those that its children show,
/// added up; and it counts as unknown, besides what its children count, if it was
/// not fully scanned itself.
pub proof fn law_a_node_adds_up_its_children(before: Seq<Node>, after: Seq<Node>, i: int)
    requires
        model::linked(before),
        model::nested(before),
        model::rolled(before, after),
        0 <= i < before.len(),
    ensures
        ({
            let b = before[i];
            let a = after[i];
            let kids = Set::new(
                |j: int| b.child_count > 0 && b.first_child <= j < b.first_child + b.child_count,
            );
            &&& a.size.logical == b.size.logical + sums::sum_over(
                kids,
                |j: int| after[j].size.logical as int,
            )
            &&& a.size.physical == b.size.physical + sums::sum_over(
                kids,
                |j: int| after[j].size.physical as int,
            )
            &&& a.size.exclusive == b.size.exclusive + sums::sum_over(
                kids,
                |j: int| after[j].size.exclusive as int,
            )
            &&& a.size.shared_clones == b.size.shared_clones + sums::sum_over(
                kids,
                |j: int| after[j].size.shared_clones as int,
            )
            &&& a.size.shared_snapshot == b.size.shared_snapshot + sums::sum_over(
                kids,
                |j: int| after[j].size.shared_snapshot as int,
            )
            &&& a.size.sparse_saving == b.size.sparse_saving + sums::sum_over(
                kids,
                |j: int| after[j].size.sparse_saving as int,
            )
            &&& a.unknown_below == b.unknown_below + walking::counts(!(b.state is Scanned))
                + sums::sum_over(kids, |j: int| after[j].unknown_below as int)
        }),
{
    let b = before[i];
    let a = after[i];
    let first = b.first_child as int;
    let kids = Set::new(
        |j: int| b.child_count > 0 && b.first_child <= j < b.first_child + b.child_count,
    );
    laws::lemma_gather_is_block(before, after, i, i + 1);
    let u = |j: int| after[j].unknown_below as int;
    assert(a.shown() == model::total(before, i));
    if b.child_count > 0 {
        assert(b.first_child > i);
        lemma_shown_sum(after, first, first + b.child_count);
        assert(kids =~= span(first, first + b.child_count));
        assert(added(after, kids, u) == model::gather(before, i, i + 1));
    } else {
        assert(kids =~= Set::empty());
    }
    assert(a.shown().logical == a.size.logical);
    assert(a.shown().unknown == a.unknown_below);
}

/// The root shows the sums over all nodes, each counted once, and how many were not
/// fully scanned.
pub proof fn law_the_root_adds_up_all(before: Seq<Node>, after: Seq<Node>)
    requires
        model::rooted(before),
        model::rolled(before, after),
        before.len() > 0,
    ensures
        ({
            let all = Set::new(|j: int| 0 <= j < before.len());
            let a = after[0];
            &&& a.size.logical == sums::sum_over(all, |j: int| before[j].size.logical as int)
            &&& a.size.physical == sums::sum_over(all, |j: int| before[j].size.physical as int)
            &&& a.size.exclusive == sums::sum_over(all, |j: int| before[j].size.exclusive as int)
            &&& a.size.shared_clones == sums::sum_over(
                all,
                |j: int| before[j].size.shared_clones as int,
            )
            &&& a.size.shared_snapshot == sums::sum_over(
                all,
                |j: int| before[j].size.shared_snapshot as int,
            )
            &&& a.size.sparse_saving == sums::sum_over(
                all,
                |j: int| before[j].size.sparse_saving as int,
            )
            &&& a.unknown_below == sums::sum_over(
                all,
                |j: int| before[j].unknown_below + walking::counts(!(before[j].state is Scanned)),
            )
        }),
{
    let all = Set::new(|j: int| 0 <= j < before.len());
    let n = before.len() as int;
    laws::law_root_shows_every_node_once(before, after);
    lemma_tallied(before, n);
    assert(all =~= span(0, n));
    assert(after[0].shown().logical == after[0].size.logical);
    assert(after[0].shown().unknown == after[0].unknown_below);
}

proof fn lemma_tallied(nodes: Seq<Node>, n: int)
    requires
        0 <= n <= nodes.len(),
    ensures
        model::tallied(nodes, n) == added(
            nodes,
            span(0, n),
            |j: int| nodes[j].unknown_below + walking::counts(!(nodes[j].state is Scanned)),
        ),
    decreases n,
{
    let u = |j: int| nodes[j].unknown_below + walking::counts(!(nodes[j].state is Scanned));
    lemma_span(0, n);
    if n > 0 {
        lemma_tallied(nodes, n - 1);
        lemma_span(0, n - 1);
        lemma_added(nodes, span(0, n - 1), u, n - 1);
    }
}

/// Rolling the sums up changes nothing but sums.
pub proof fn law_rolling_up_changes_only_sums(before: Seq<Node>, after: Seq<Node>, i: int)
    requires
        model::rolled(before, after),
        0 <= i < before.len(),
    ensures
        after.len() == before.len(),
        after[i].name_off == before[i].name_off,
        after[i].name_len == before[i].name_len,
        after[i].kind == before[i].kind,
        after[i].state == before[i].state,
        after[i].detail == before[i].detail,
        after[i].parent == before[i].parent,
        after[i].first_child == before[i].first_child,
        after[i].child_count == before[i].child_count,
        after[i].flags == before[i].flags,
        after[i].ext_flags == before[i].ext_flags,
        after[i].hardlink_alias == before[i].hardlink_alias,
        after[i].mtime == before[i].mtime,
{
    assert(after[i].same_but_sums(before[i]));
}

/// There is room for sums of up to 64 bits, and for 32 bits of unknowns.
pub proof fn law_room_for_sums(t: Totals)
    ensures
        t.fits() <==> t.logical < 0x1_0000_0000_0000_0000 && t.physical < 0x1_0000_0000_0000_0000
            && t.exclusive < 0x1_0000_0000_0000_0000 && t.shared_clones < 0x1_0000_0000_0000_0000
            && t.shared_snapshot < 0x1_0000_0000_0000_0000 && t.sparse_saving
            < 0x1_0000_0000_0000_0000 && t.unknown < 0x1_0000_0000,
{
}

} // verus!
