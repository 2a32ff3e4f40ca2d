//! What deleting a selection of nodes frees, and what it does not.

use vstd::prelude::*;
use crate::model;
use crate::model::{Kind, Node, NodeId};
use crate::report;
use crate::report::Reclaim;
use crate::scan::{Family, ScanResult};
use crate::sums;

verus! {

/// A node is covered just if it is selected itself or hangs under one that is
/// covered.
pub proof fn law_what_a_selection_covers(nodes: Seq<Node>, sel: Seq<NodeId>, d: NodeId)
    requires
        d < nodes.len(),
    ensures
        report::covered(nodes, sel, d as int) <==> sel.contains(d) || (nodes[d as int].parent < d
            && report::covered(nodes, sel, nodes[d as int].parent as int)),
{
    let p = nodes[d as int].parent as int;
    if report::covered(nodes, sel, d as int) {
        let k = choose|k: int|
            0 <= k < sel.len() && (#[trigger] sel[k]) < nodes.len() && model::at_or_below(
                nodes,
                sel[k] as int,
                d as int,
            );
        if sel[k] != d {
            assert(model::at_or_below(nodes, sel[k] as int, p));
        }
    }
    if sel.contains(d) {
        let k = choose|k: int| 0 <= k < sel.len() && sel[k] == d;
        assert(model::at_or_below(nodes, sel[k] as int, d as int));
    }
    if p < d && report::covered(nodes, sel, p) {
        let k = choose|k: int|
            0 <= k < sel.len() && (#[trigger] sel[k]) < nodes.len() && model::at_or_below(
                nodes,
                sel[k] as int,
                p,
            );
        assert(model::at_or_below(nodes, sel[k] as int, d as int));
    }
}

/// The covered nodes among the first `n`.
pub open spec fn cover(nodes: Seq<Node>, sel: Seq<NodeId>, n: int) -> Set<int> {
    Set::new(|i: int| 0 <= i < n && report::covered(nodes, sel, i))
}

proof fn lemma_cover(nodes: Seq<Node>, sel: Seq<NodeId>, n: int)
    requires
        0 <= n,
    ensures
        cover(nodes, sel, n).finite(),
        n > 0 && report::covered(nodes, sel, n - 1) ==> cover(nodes, sel, n) == cover(
            nodes,
            sel,
            n - 1,
        ).insert(n - 1),
        n > 0 && !report::covered(nodes, sel, n - 1) ==> cover(nodes, sel, n) == cover(
            nodes,
            sel,
            n - 1,
        ),
    decreases n,
{
    if n > 0 {
        lemma_cover(nodes, sel, n - 1);
        if report::covered(nodes, sel, n - 1) {
            assert(cover(nodes, sel, n) =~= cover(nodes, sel, n - 1).insert(n - 1));
        } else {
            assert(cover(nodes, sel, n) =~= cover(nodes, sel, n - 1));
        }
    } else {
        assert(cover(nodes, sel, n) =~= Set::empty());
    }
}

/// The bytes of a node, if it is no directory: what a directory shows is below it.
pub open spec fn own(n: Node, bytes: u64) -> int {
    if n.kind is Dir {
        0
    } else {
        bytes as int
    }
}

proof fn lemma_picked(nodes: Seq<Node>, sel: Seq<NodeId>, n: int)
    requires
        0 <= n <= nodes.len(),
    ensures
        ({
            let p = report::picked(nodes, sel, n);
            let s = cover(nodes, sel, n);
            &&& p.exclusive == sums::sum_over(s, |i: int| own(nodes[i], nodes[i].size.exclusive))
            &&& p.pinned == sums::sum_over(
                s,
                |i: int| own(nodes[i], nodes[i].size.shared_snapshot),
            )
            &&& p.physical == sums::sum_over(s, |i: int| own(nodes[i], nodes[i].size.physical))
            &&& p.files == s.filter(|i: int| nodes[i].kind == Kind::File).len()
            &&& p.dirs == s.filter(|i: int| nodes[i].kind == Kind::Dir).len()
            &&& p.unknown == s.filter(|i: int| !(nodes[i].state is Scanned)).len()
        }),
    decreases n,
{
    let s = cover(nodes, sel, n);
    let fe = |i: int| own(nodes[i], nodes[i].size.exclusive);
    let fs = |i: int| own(nodes[i], nodes[i].size.shared_snapshot);
    let fp = |i: int| own(nodes[i], nodes[i].size.physical);
    let cf = |i: int| nodes[i].kind == Kind::File;
    let cd = |i: int| nodes[i].kind == Kind::Dir;
    let cu = |i: int| !(nodes[i].state is Scanned);
    lemma_cover(nodes, sel, n);
    if n > 0 {
        lemma_picked(nodes, sel, n - 1);
        let t = cover(nodes, sel, n - 1);
        lemma_cover(nodes, sel, n - 1);
        if report::covered(nodes, sel, n - 1) {
            sums::lemma_sum_insert(t, fe, n - 1);
            sums::lemma_sum_insert(t, fs, n - 1);
            sums::lemma_sum_insert(t, fp, n - 1);
            lemma_filter_insert(t, cf, n - 1);
            lemma_filter_insert(t, cd, n - 1);
            lemma_filter_insert(t, cu, n - 1);
        }
    } else {
        assert(s =~= Set::empty());
        assert(s.filter(cf) =~= Set::empty());
        assert(s.filter(cd) =~= Set::empty());
        assert(s.filter(cu) =~= Set::empty());
    }
}

proof fn lemma_filter_insert(s: Set<int>, c: spec_fn(int) -> bool, x: int)
    requires
        s.finite(),
        !s.contains(x),
    ensures
        s.insert(x).filter(c).len() == s.filter(c).len() + (if c(x) {
            1int
        } else {
            0
        }),
{
    s.lemma_len_filter(c);
    if c(x) {
        assert(s.insert(x).filter(c) =~= s.filter(c).insert(x));
    } else {
        assert(s.insert(x).filter(c) =~= s.filter(c));
    }
}

/// The figures on the nodes themselves are sums over the covered nodes, each taken
/// once: what they own alone, what snapshots pin of them and what is allocated to
/// them, without the directories, whose sums are those of what is below them; and
/// how many are files, directories, and not fully known.
pub proof fn law_figures_are_sums_over_the_covered(
    out: Reclaim,
    r: ScanResult,
    sel: Seq<NodeId>,
)
    requires
        report::reclaims(out, r, sel),
    ensures
        ({
            let nodes = r.tree.nodes@;
            let s = Set::new(|i: int| 0 <= i < nodes.len() && report::covered(nodes, sel, i));
            &&& out.from_exclusive == sums::sum_over(
                s,
                |i: int| own(nodes[i], nodes[i].size.exclusive),
            )
            &&& out.pinned_by_snapshot == sums::sum_over(
                s,
                |i: int| own(nodes[i], nodes[i].size.shared_snapshot),
            )
            &&& out.physical == sums::sum_over(s, |i: int| own(nodes[i], nodes[i].size.physical))
            &&& out.files == s.filter(|i: int| nodes[i].kind == Kind::File).len()
            &&& out.dirs == s.filter(|i: int| nodes[i].kind == Kind::Dir).len()
            &&& out.unknown == s.filter(|i: int| !(nodes[i].state is Scanned)).len()
            &&& out.bytes == out.from_exclusive + out.from_completed_families
        }),
{
    let nodes = r.tree.nodes@;
    let s = Set::new(|i: int| 0 <= i < nodes.len() && report::covered(nodes, sel, i));
    assert(s =~= cover(nodes, sel, nodes.len() as int));
    lemma_picked(nodes, sel, nodes.len() as int);
}

/// The covered nodes that belong to a family.
pub open spec fn taken(r: ScanResult, sel: Seq<NodeId>, c: u64) -> Set<NodeId> {
    Set::new(
        |id: NodeId|
            r.clone_of@.contains_key(id) && r.clone_of@[id] == c && id < r.tree.nodes@.len()
                && report::covered(r.tree.nodes@, sel, id as int),
    )
}

/// The family is known, and a member of it is covered.
pub open spec fn is_struck(r: ScanResult, sel: Seq<NodeId>, c: u64) -> bool {
    r.families@.contains_key(c) && exists|id: NodeId| #[trigger] taken(r, sel, c).contains(id)
}

/// The family is known, files share blocks in it, and as many of its members are
/// covered as there are references to the blocks.
pub open spec fn is_freed(r: ScanResult, sel: Seq<NodeId>, c: u64) -> bool {
    r.families@.contains_key(c) && r.families@[c].refcnt > 1 && taken(r, sel, c).len()
        >= r.families@[c].refcnt
}

proof fn lemma_sides(r: ScanResult, sel: Seq<NodeId>)
    requires
        r.families@.dom().finite(),
        r.clone_of@.dom().finite(),
    ensures
        ({
            let freed = Set::new(|c: u64| is_freed(r, sel, c));
            let held = Set::new(|c: u64| is_struck(r, sel, c) && !is_freed(r, sel, c));
            &&& freed == report::completed_families(r, sel)
            &&& held == report::touched_families(r, sel)
            &&& freed.finite()
            &&& held.finite()
            &&& freed.disjoint(held)
            &&& Set::new(|c: u64| is_struck(r, sel, c)) == freed + held
        }),
{
    let freed = Set::new(|c: u64| is_freed(r, sel, c));
    let held = Set::new(|c: u64| is_struck(r, sel, c) && !is_freed(r, sel, c));
    assert forall|c: u64| #[trigger] taken(r, sel, c) == report::chosen(r, sel, c) by {
        assert(taken(r, sel, c) =~= report::chosen(r, sel, c));
    }
    assert forall|c: u64| is_struck(r, sel, c) == (r.families@.contains_key(c) && #[trigger] taken(
        r,
        sel,
        c,
    ).len() > 0) by {
        let t = taken(r, sel, c);
        vstd::set_lib::lemma_set_subset_finite(r.clone_of@.dom(), t);
        if is_struck(r, sel, c) {
            let id = choose|id: NodeId| #[trigger] t.contains(id);
            assert(t.len() == t.remove(id).len() + 1);
        }
        if t.len() > 0 {
            assert(t.contains(t.choose()));
        }
    }
    assert forall|c: u64| freed.contains(c) == report::completed_families(r, sel).contains(c) by {
        assert(taken(r, sel, c) == report::chosen(r, sel, c));
    }
    assert forall|c: u64| held.contains(c) == report::touched_families(r, sel).contains(c) by {
        assert(taken(r, sel, c) == report::chosen(r, sel, c));
    }
    assert(freed =~= report::completed_families(r, sel));
    assert(held =~= report::touched_families(r, sel));
    vstd::set_lib::lemma_set_subset_finite(r.families@.dom(), freed);
    vstd::set_lib::lemma_set_subset_finite(r.families@.dom(), held);
    assert forall|c: u64| is_freed(r, sel, c) implies is_struck(r, sel, c) by {
        assert(taken(r, sel, c).len() > 0);
    }
    assert(Set::new(|c: u64| is_struck(r, sel, c)) =~= freed + held);
}

/// Sums over sets without a common element add up.
pub proof fn lemma_sum_disjoint<A>(s: Set<A>, t: Set<A>, f: spec_fn(A) -> int)
    requires
        s.finite(),
        t.finite(),
        s.disjoint(t),
    ensures
        sums::sum_over(s + t, f) == sums::sum_over(s, f) + sums::sum_over(t, f),
    decreases t.len(),
{
    if t.len() > 0 {
        let x = t.choose();
        lemma_sum_disjoint(s, t.remove(x), f);
        assert(!(s + t.remove(x)).contains(x));
        assert(s + t =~= (s + t.remove(x)).insert(x));
        sums::lemma_sum_insert(s + t.remove(x), f, x);
        sums::lemma_sum_remove(t, f, x);
    } else {
        assert(s + t =~= s);
    }
}

/// Every known family with a covered member counts on just one side: what its
/// members share is freed if as many of them are covered as there are references to
/// the blocks, however many the scan has met, and else is held by clones outside.
/// The two figures are the sums over these families, and together that over all of
/// them.
pub proof fn law_each_family_counts_on_one_side(out: Reclaim, r: ScanResult, sel: Seq<NodeId>)
    requires
        report::reclaims(out, r, sel),
        r.families@.dom().finite(),
        r.clone_of@.dom().finite(),
    ensures
        ({
            let bytes = |c: u64| r.families@[c].shared_bytes as int;
            let freed = Set::new(|c: u64| is_freed(r, sel, c));
            let held = Set::new(|c: u64| is_struck(r, sel, c) && !is_freed(r, sel, c));
            &&& out.from_completed_families == sums::sum_over(freed, bytes)
            &&& out.families_completed == freed.len()
            &&& out.held_by_clones_outside == sums::sum_over(held, bytes)
            &&& out.from_completed_families + out.held_by_clones_outside == sums::sum_over(
                Set::new(|c: u64| is_struck(r, sel, c)),
                bytes,
            )
        }),
{
    lemma_sides(r, sel);
    let bytes = |c: u64| r.families@[c].shared_bytes as int;
    let freed = Set::new(|c: u64| is_freed(r, sel, c));
    let held = Set::new(|c: u64| is_struck(r, sel, c) && !is_freed(r, sel, c));
    lemma_sum_disjoint(freed, held, bytes);
}

/// Where a member of a known family is covered, but fewer than there are references
/// to the blocks, what the family shares is part of what clones outside hold, and of
/// nothing that is freed. Where it has all its references covered it is the other
/// way round.
pub proof fn law_what_clones_hold_is_told(
    out: Reclaim,
    r: ScanResult,
    sel: Seq<NodeId>,
    id: NodeId,
    c: u64,
)
    requires
        report::reclaims(out, r, sel),
        r.families@.dom().finite(),
        r.clone_of@.dom().finite(),
        r.clone_of@.contains_key(id),
        r.clone_of@[id] == c,
        r.families@.contains_key(c),
        id < r.tree.nodes@.len(),
        report::covered(r.tree.nodes@, sel, id as int),
    ensures
        ({
            let f = r.families@[c];
            let bytes = |d: u64| r.families@[d].shared_bytes as int;
            let freed = Set::new(|d: u64| is_freed(r, sel, d));
            let held = Set::new(|d: u64| is_struck(r, sel, d) && !is_freed(r, sel, d));
            &&& f.refcnt <= 1 || taken(r, sel, c).len() < f.refcnt ==> out.held_by_clones_outside
                == f.shared_bytes + sums::sum_over(held.remove(c), bytes)
                && out.held_by_clones_outside >= f.shared_bytes && !freed.contains(c)
            &&& f.refcnt > 1 && taken(r, sel, c).len() >= f.refcnt ==> out.from_completed_families
                == f.shared_bytes + sums::sum_over(freed.remove(c), bytes)
                && out.from_completed_families >= f.shared_bytes && !held.contains(c)
        }),
{
    lemma_sides(r, sel);
    law_each_family_counts_on_one_side(out, r, sel);
    let f = r.families@[c];
    let bytes = |d: u64| r.families@[d].shared_bytes as int;
    let freed = Set::new(|d: u64| is_freed(r, sel, d));
    let held = Set::new(|d: u64| is_struck(r, sel, d) && !is_freed(r, sel, d));
    assert(taken(r, sel, c).contains(id));
    assert(is_struck(r, sel, c));
    if is_freed(r, sel, c) {
        assert(freed.contains(c));
        sums::lemma_sum_remove(freed, bytes, c);
        sums::lemma_sum_grows(freed.remove(c), freed.remove(c), bytes);
    } else {
        assert(held.contains(c));
        sums::lemma_sum_remove(held, bytes, c);
        sums::lemma_sum_grows(held.remove(c), held.remove(c), bytes);
    }
}

/// Figures are given just if all of them fit in 64 bits, and the number of families
/// that are freed in 32.
pub proof fn law_when_figures_are_given(r: ScanResult, sel: Seq<NodeId>)
    requires
        r.families@.dom().finite(),
        r.clone_of@.dom().finite(),
    ensures
        ({
            let nodes = r.tree.nodes@;
            let s = Set::new(|i: int| 0 <= i < nodes.len() && report::covered(nodes, sel, i));
            let bytes = |c: u64| r.families@[c].shared_bytes as int;
            let freed = Set::new(|c: u64| is_freed(r, sel, c));
            let held = Set::new(|c: u64| is_struck(r, sel, c) && !is_freed(r, sel, c));
            report::reclaim_fits(r, sel) <==> {
                &&& sums::sum_over(s, |i: int| own(nodes[i], nodes[i].size.exclusive))
                    + sums::sum_over(freed, bytes) < 0x1_0000_0000_0000_0000
                &&& sums::sum_over(s, |i: int| own(nodes[i], nodes[i].size.shared_snapshot))
                    < 0x1_0000_0000_0000_0000
                &&& sums::sum_over(s, |i: int| own(nodes[i], nodes[i].size.physical))
                    < 0x1_0000_0000_0000_0000
                &&& sums::sum_over(held, bytes) < 0x1_0000_0000_0000_0000
                &&& freed.len() < 0x1_0000_0000
            }
        }),
{
    let nodes = r.tree.nodes@;
    let s = Set::new(|i: int| 0 <= i < nodes.len() && report::covered(nodes, sel, i));
    assert(s =~= cover(nodes, sel, nodes.len() as int));
    lemma_picked(nodes, sel, nodes.len() as int);
    lemma_sides(r, sel);
}

/// What the clones of a whole scan could free is what those families share of which
/// the scan has met as many members as there are references, where there is more
/// than one.
pub proof fn law_what_whole_families_share(m: Map<u64, Family>)
    ensures
        ({
            let whole = Set::new(
                |c: u64| m.contains_key(c) && m[c].refcnt > 1 && m[c].seen >= m[c].refcnt,
            );
            &&& report::whole_families(m) == whole
            &&& report::shared_by(m, report::whole_families(m)) == sums::sum_over(
                whole,
                |c: u64| m[c].shared_bytes as int,
            )
        }),
{
    let whole = Set::new(
        |c: u64| m.contains_key(c) && m[c].refcnt > 1 && m[c].seen >= m[c].refcnt,
    );
    assert(report::whole_families(m) =~= whole);
}

/// A sum over nothing is zero; each new term is added once.
pub proof fn law_sums_take_each_term_once<A>(s: Set<A>, f: spec_fn(A) -> int, x: A)
    requires
        s.finite(),
        !s.contains(x),
    ensures
        sums::sum_over(Set::<A>::empty(), f) == 0,
        sums::sum_over(s.insert(x), f) == sums::sum_over(s, f) + f(x),
{
    sums::lemma_sum_insert(s, f, x);
}

} // verus!
