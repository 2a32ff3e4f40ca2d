//! What a scan comes to: figures that a person can act on.

use std::collections::HashMap;

use vstd::prelude::*;
use crate::foreign;
use crate::meaning::ordering;
use crate::model;
use crate::model::{Kind, Node, NodeId, State, Tree, ROOT};
use crate::numbers;
use crate::order;
use crate::order::{ByColumn, Column};
use crate::scan::{Family, ScanResult};
use crate::sums;
use crate::text;
use crate::walk;

verus! {

broadcast use vstd::std_specs::hash::group_hash_axioms;

/// All members of the family are in the scan, so that deleting all of them
/// would free what they share.
pub open spec fn is_whole(f: Family) -> bool {
    f.seen >= f.refcnt && f.refcnt > 1
}

/// The families that are wholly in the scan.
pub open spec fn whole_families(m: Map<u64, Family>) -> Set<u64> {
    m.dom().filter(|c: u64| is_whole(m[c]))
}

/// The bytes that the members of each of the families share, added up.
pub open spec fn shared_by(m: Map<u64, Family>, ids: Set<u64>) -> int {
    sums::sum_over(ids, |c: u64| m[c].shared_bytes as int)
}

/// The ids of the families, in some order.
fn family_ids(m: &HashMap<u64, Family>) -> (r: Vec<u64>)
    ensures
        r@.no_duplicates(),
        r@.to_set() == m@.dom(),
{
    let mut v: Vec<u64> = Vec::new();
    let ghost all = vstd::std_specs::iter::IteratorSpec::remaining(
        &vstd::std_specs::hash::spec_keys_iter(m),
    ).unref();
    for k in it: m.keys()
        invariant
            it.seq().unref() == all,
            v@ == all.take(it.index()),
    {
        v.push(*k);
        assert(all.take(it.index() + 1) =~= all.take(it.index()).push(*k));
    }
    assert(v@ =~= all);
    v
}

/// What the families that are wholly in the scan share, how many such families
/// there are, and how many families there are at all.
pub fn clone_totals(r: &ScanResult) -> (t: (u128, usize, usize))
    ensures
        t.0 == shared_by(r.families@, whole_families(r.families@)),
        t.1 == whole_families(r.families@).len(),
        t.2 == r.families@.len(),
{
    let ids = family_ids(&r.families);
    let ghost m = r.families@;
    let ghost f = |c: u64| m[c].shared_bytes as int;
    let ghost p = |c: u64| is_whole(m[c]);
    let mut bytes: u128 = 0;
    let mut whole: usize = 0;
    let mut i: usize = 0;
    proof {
        assert(ids@.take(0).to_set().filter(p) =~= Set::empty());
    }
    while i < ids.len()
        invariant
            m == r.families@,
            f == (|c: u64| m[c].shared_bytes as int),
            p == (|c: u64| is_whole(m[c])),
            ids@.no_duplicates(),
            ids@.to_set() == m.dom(),
            i <= ids@.len(),
            whole <= i,
            bytes <= i * u64::MAX,
            ids@.take(i as int).to_set().filter(p).finite(),
            bytes == sums::sum_over(ids@.take(i as int).to_set().filter(p), f),
            whole == ids@.take(i as int).to_set().filter(p).len(),
        decreases ids@.len() - i,
    {
        let c: u64 = ids[i];
        let ghost before = ids@.take(i as int).to_set();
        let ghost after = ids@.take(i + 1).to_set();
        proof {
            sums::lemma_take_set(ids@, i as int);
            assert(ids@.to_set().contains(c));
            if p(c) {
                assert(after.filter(p) =~= before.filter(p).insert(c));
                sums::lemma_sum_insert(before.filter(p), f, c);
            } else {
                assert(after.filter(p) =~= before.filter(p));
            }
            assert(i <= usize::MAX as int - 1);
            assert(i * u64::MAX + u64::MAX <= u128::MAX) by (nonlinear_arith)
                requires
                    i < u64::MAX,
            ;
            assert((i + 1) * u64::MAX == i * u64::MAX + u64::MAX) by (nonlinear_arith);
        }
        if let Some(x) = r.families.get(&c) {
            if x.seen >= x.refcnt && x.refcnt > 1 {
                bytes = bytes + x.shared_bytes as u128;
                whole = whole + 1;
            }
        }
        i = i + 1;
    }
    proof {
        assert(ids@.take(i as int) =~= ids@);
        assert(whole_families(m) =~= ids@.to_set().filter(p));
    }
    (bytes, whole, r.families.len())
}

/// What deleting all members of the families that are wholly in the scan would
/// free, how many such families there are, and how many families there are at
/// all. A family that is partly elsewhere frees nothing.
pub fn reclaimable_from_clones(r: &ScanResult) -> (t: (u64, usize, usize))
    requires
        shared_by(r.families@, whole_families(r.families@)) <= u64::MAX,
    ensures
        t.0 == shared_by(r.families@, whole_families(r.families@)),
        t.1 == whole_families(r.families@).len(),
        t.2 == r.families@.len(),
{
    let (bytes, whole, all) = clone_totals(r);
    (bytes as u64, whole, all)
}

/// What deleting a selection of nodes, each with everything below it, comes to.
#[derive(Clone, Copy, Debug, PartialEq, Eq, Structural)]
pub struct Reclaim {
    /// The bytes that are freed at once.
    pub bytes: u64,
    /// Of these: the bytes that the files do not share.
    pub from_exclusive: u64,
    /// Of these: what families share of which every member is selected.
    pub from_completed_families: u64,
    /// What would be freed too if the members elsewhere were selected as well.
    pub held_by_clones_outside: u64,
    /// What deleting files does not free.
    pub pinned_by_snapshot: u64,
    pub physical: u64,
    pub files: u64,
    pub dirs: u64,
    pub families_completed: u32,
    /// The nodes in the selection that are not fully scanned.
    pub unknown: u32,
}

/// Node `d` is selected, or lies below a node that is. Ids that the tree does
/// not have select nothing.
pub open spec fn covered(nodes: Seq<Node>, sel: Seq<NodeId>, d: int) -> bool {
    exists|k: int|
        0 <= k < sel.len() && (#[trigger] sel[k]) < nodes.len() && model::at_or_below(
            nodes,
            sel[k] as int,
            d,
        )
}

/// What nodes come to by themselves.
pub struct Picked {
    pub exclusive: int,
    pub pinned: int,
    pub physical: int,
    pub files: int,
    pub dirs: int,
    pub unknown: int,
}

impl Picked {
    pub open spec fn nothing() -> Picked {
        Picked { exclusive: 0, pinned: 0, physical: 0, files: 0, dirs: 0, unknown: 0 }
    }

    pub open spec fn plus(self, o: Picked) -> Picked {
        Picked {
            exclusive: self.exclusive + o.exclusive,
            pinned: self.pinned + o.pinned,
            physical: self.physical + o.physical,
            files: self.files + o.files,
            dirs: self.dirs + o.dirs,
            unknown: self.unknown + o.unknown,
        }
    }
}

/// What one node comes to. A directory shows the sums over what is below it, so
/// its sizes do not count again.
pub open spec fn weight(n: Node) -> Picked {
    Picked {
        exclusive: if n.kind is Dir {
            0
        } else {
            n.size.exclusive as int
        },
        pinned: if n.kind is Dir {
            0
        } else {
            n.size.shared_snapshot as int
        },
        physical: if n.kind is Dir {
            0
        } else {
            n.size.physical as int
        },
        files: if n.kind is File {
            1
        } else {
            0
        },
        dirs: if n.kind is Dir {
            1
        } else {
            0
        },
        unknown: if n.state is Scanned {
            0
        } else {
            1
        },
    }
}

/// What those of the first `n` nodes that are covered come to, each counted
/// once.
pub open spec fn picked(nodes: Seq<Node>, sel: Seq<NodeId>, n: int) -> Picked
    decreases n,
{
    if n <= 0 {
        Picked::nothing()
    } else if covered(nodes, sel, n - 1) {
        picked(nodes, sel, n - 1).plus(weight(nodes[n - 1]))
    } else {
        picked(nodes, sel, n - 1)
    }
}

/// The members of a family that are covered and come before node `n`.
pub open spec fn chosen_before(r: ScanResult, sel: Seq<NodeId>, c: u64, n: int) -> Set<NodeId> {
    walk::members(r.clone_of@, c).filter(
        |id: NodeId| id < n && covered(r.tree.nodes@, sel, id as int),
    )
}

/// The members of a family that are covered.
pub open spec fn chosen(r: ScanResult, sel: Seq<NodeId>, c: u64) -> Set<NodeId> {
    chosen_before(r, sel, c, r.tree.nodes@.len() as int)
}

/// The family has more than one member, and all of them are covered.
pub open spec fn completes(r: ScanResult, sel: Seq<NodeId>, c: u64) -> bool {
    r.families@[c].refcnt > 1 && chosen(r, sel, c).len() >= r.families@[c].refcnt
}

/// A member is covered, but not all are.
pub open spec fn touches(r: ScanResult, sel: Seq<NodeId>, c: u64) -> bool {
    chosen(r, sel, c).len() > 0 && !completes(r, sel, c)
}

pub open spec fn completed_families(r: ScanResult, sel: Seq<NodeId>) -> Set<u64> {
    r.families@.dom().filter(|c: u64| completes(r, sel, c))
}

pub open spec fn touched_families(r: ScanResult, sel: Seq<NodeId>) -> Set<u64> {
    r.families@.dom().filter(|c: u64| touches(r, sel, c))
}

/// All figures fit in 64 bits.
pub open spec fn reclaim_fits(r: ScanResult, sel: Seq<NodeId>) -> bool {
    let p = picked(r.tree.nodes@, sel, r.tree.nodes@.len() as int);
    let whole = completed_families(r, sel);
    &&& p.exclusive + shared_by(r.families@, whole) <= u64::MAX
    &&& p.pinned <= u64::MAX
    &&& p.physical <= u64::MAX
    &&& shared_by(r.families@, touched_families(r, sel)) <= u64::MAX
    &&& whole.len() <= u32::MAX
}

/// These are the figures for the selection.
pub open spec fn reclaims(out: Reclaim, r: ScanResult, sel: Seq<NodeId>) -> bool {
    let p = picked(r.tree.nodes@, sel, r.tree.nodes@.len() as int);
    let whole = completed_families(r, sel);
    &&& out.bytes == p.exclusive + shared_by(r.families@, whole)
    &&& out.from_exclusive == p.exclusive
    &&& out.from_completed_families == shared_by(r.families@, whole)
    &&& out.held_by_clones_outside == shared_by(r.families@, touched_families(r, sel))
    &&& out.pinned_by_snapshot == p.pinned
    &&& out.physical == p.physical
    &&& out.files == p.files
    &&& out.dirs == p.dirs
    &&& out.families_completed == whole.len()
    &&& out.unknown == p.unknown
}

proof fn lemma_covered(nodes: Seq<Node>, sel: Seq<NodeId>, d: int)
    requires
        0 <= d < nodes.len(),
    ensures
        covered(nodes, sel, d) <==> (exists|k: int| 0 <= k < sel.len() && (#[trigger] sel[k]) == d)
            || (nodes[d].parent < d && covered(nodes, sel, nodes[d].parent as int)),
{
    let p = nodes[d].parent as int;
    if covered(nodes, sel, d) {
        let k = choose|k: int|
            0 <= k < sel.len() && (#[trigger] sel[k]) < nodes.len() && model::at_or_below(
                nodes,
                sel[k] as int,
                d,
            );
        if sel[k] != d {
            assert(model::at_or_below(nodes, sel[k] as int, p));
        }
    }
    if exists|k: int| 0 <= k < sel.len() && (#[trigger] sel[k]) == d {
        let k = choose|k: int| 0 <= k < sel.len() && (#[trigger] sel[k]) == d;
        assert(model::at_or_below(nodes, sel[k] as int, d));
    }
    if p < d && covered(nodes, sel, p) {
        let k = choose|k: int|
            0 <= k < sel.len() && (#[trigger] sel[k]) < nodes.len() && model::at_or_below(
                nodes,
                sel[k] as int,
                p,
            );
        assert(model::at_or_below(nodes, sel[k] as int, d));
    }
}

/// Which nodes are covered. A node comes after its parent, so one pass does.
fn coverage(nodes: &Vec<Node>, sel: &[NodeId]) -> (r: Vec<bool>)
    ensures
        r@.len() == nodes@.len(),
        forall|i: int| 0 <= i < r@.len() ==> #[trigger] r@[i] == covered(nodes@, sel@, i),
{
    let n: usize = nodes.len();
    let mut marks: Vec<bool> = Vec::with_capacity(n);
    let mut i: usize = 0;
    while i < n
        invariant
            i <= n,
            marks@.len() == i,
            forall|j: int| 0 <= j < i ==> !(#[trigger] marks@[j]),
        decreases n - i,
    {
        marks.push(false);
        i = i + 1;
    }
    let mut k: usize = 0;
    while k < sel.len()
        invariant
            k <= sel@.len(),
            marks@.len() == n,
            forall|j: int|
                0 <= j < n ==> (#[trigger] marks@[j] <==> exists|k2: int|
                    0 <= k2 < k && (#[trigger] sel@[k2]) == j),
        decreases sel@.len() - k,
    {
        let id: NodeId = sel[k];
        let ghost before = marks@;
        if (id as usize) < n {
            marks[id as usize] = true;
        }
        k = k + 1;
        assert forall|j: int| 0 <= j < n implies (#[trigger] marks@[j] <==> exists|k2: int|
            0 <= k2 < k && (#[trigger] sel@[k2]) == j) by {
            if j == id {
                assert(sel@[k - 1] == j);
            } else {
                assert(marks@[j] == before[j]);
            }
        }
    }
    let mut i: usize = 0;
    while i < n
        invariant
            i <= n,
            n == nodes@.len(),
            marks@.len() == n,
            forall|j: int| 0 <= j < i ==> #[trigger] marks@[j] == covered(nodes@, sel@, j),
            forall|j: int|
                i <= j < n ==> (#[trigger] marks@[j] <==> exists|k2: int|
                    0 <= k2 < sel@.len() && (#[trigger] sel@[k2]) == j),
        decreases n - i,
    {
        let p: usize = nodes[i].parent as usize;
        proof {
            lemma_covered(nodes@, sel@, i as int);
        }
        if p < i && marks[p] {
            marks[i] = true;
        }
        i = i + 1;
    }
    marks
}

spec fn count_in(m: Map<u64, u32>, c: u64) -> int {
    if m.contains_key(c) {
        m[c] as int
    } else {
        0
    }
}

proof fn lemma_chosen_step(r: ScanResult, sel: Seq<NodeId>, c: u64, n: int)
    requires
        0 <= n <= u32::MAX,
    ensures
        chosen_before(r, sel, c, n + 1) == (if r.clone_of@.contains_key(n as NodeId)
            && r.clone_of@[n as NodeId] == c && covered(r.tree.nodes@, sel, n) {
            chosen_before(r, sel, c, n).insert(n as NodeId)
        } else {
            chosen_before(r, sel, c, n)
        }),
        !chosen_before(r, sel, c, n).contains(n as NodeId),
{
    let a = chosen_before(r, sel, c, n);
    let b = chosen_before(r, sel, c, n + 1);
    if r.clone_of@.contains_key(n as NodeId) && r.clone_of@[n as NodeId] == c && covered(
        r.tree.nodes@,
        sel,
        n,
    ) {
        assert(b =~= a.insert(n as NodeId));
    } else {
        assert(b =~= a);
    }
}

/// How many members of each family are covered.
fn count_chosen(r: &ScanResult, Ghost(sel): Ghost<Seq<NodeId>>, marks: &Vec<bool>) -> (m: HashMap<
    u64,
    u32,
>)
    requires
        marks@.len() == r.tree.nodes@.len() <= u32::MAX,
        forall|i: int|
            0 <= i < marks@.len() ==> #[trigger] marks@[i] == covered(r.tree.nodes@, sel, i),
    ensures
        forall|c: u64| count_in(m@, c) == (#[trigger] chosen(*r, sel, c)).len(),
        forall|c: u64| (#[trigger] chosen(*r, sel, c)).finite(),
{
    let mut m: HashMap<u64, u32> = HashMap::new();
    let n: usize = marks.len();
    let mut i: usize = 0;
    assert forall|c: u64| (#[trigger] chosen_before(*r, sel, c, 0)) == Set::<NodeId>::empty() by {
        assert(chosen_before(*r, sel, c, 0) =~= Set::empty());
    }
    while i < n
        invariant
            i <= n,
            n == marks@.len() == r.tree.nodes@.len() <= u32::MAX,
            forall|j: int|
                0 <= j < marks@.len() ==> #[trigger] marks@[j] == covered(r.tree.nodes@, sel, j),
            forall|c: u64|
                count_in(m@, c) == (#[trigger] chosen_before(*r, sel, c, i as int)).len(),
            forall|c: u64| (#[trigger] chosen_before(*r, sel, c, i as int)).finite(),
            forall|c: u64| #[trigger] count_in(m@, c) <= i,
        decreases n - i,
    {
        let ghost before = m@;
        let id: NodeId = i as NodeId;
        if marks[i] {
            if let Some(c) = r.clone_of.get(&id) {
                assert(count_in(m@, *c) <= i);
                let seen: u32 = match m.get(c) {
                    Some(x) => *x,
                    None => 0,
                };
                m.insert(*c, seen + 1);
            }
        }
        proof {
            assert forall|c: u64|
                count_in(m@, c) == (#[trigger] chosen_before(*r, sel, c, i + 1)).len()
                    && chosen_before(*r, sel, c, i + 1).finite() && count_in(m@, c) <= i + 1 by {
                lemma_chosen_step(*r, sel, c, i as int);
                assert(count_in(before, c) == chosen_before(*r, sel, c, i as int).len());
                assert(count_in(before, c) <= i);
            }
            assert forall|c: u64| #[trigger] count_in(m@, c) <= i + 1 by {
                assert(chosen_before(*r, sel, c, i + 1).finite());
            }
        }
        i = i + 1;
    }
    assert forall|c: u64| count_in(m@, c) == (#[trigger] chosen(*r, sel, c)).len() && chosen(
        *r,
        sel,
        c,
    ).finite() by {
        assert(chosen(*r, sel, c) == chosen_before(*r, sel, c, n as int));
    }
    m
}

/// What the completed families share, how many there are, and what the touched
/// ones share.
fn weigh_families(
    r: &ScanResult,
    Ghost(sel): Ghost<Seq<NodeId>>,
    counts: &HashMap<u64, u32>,
) -> (t: (u128, usize, u128))
    requires
        forall|c: u64| count_in(counts@, c) == (#[trigger] chosen(*r, sel, c)).len(),
    ensures
        t.0 == shared_by(r.families@, completed_families(*r, sel)),
        t.1 == completed_families(*r, sel).len(),
        t.2 == shared_by(r.families@, touched_families(*r, sel)),
{
    let ids = family_ids(&r.families);
    let ghost m = r.families@;
    let ghost f = |c: u64| m[c].shared_bytes as int;
    let ghost p = |c: u64| completes(*r, sel, c);
    let ghost q = |c: u64| touches(*r, sel, c);
    let mut bytes: u128 = 0;
    let mut whole: usize = 0;
    let mut held: u128 = 0;
    let mut i: usize = 0;
    proof {
        assert(ids@.take(0).to_set().filter(p) =~= Set::empty());
        assert(ids@.take(0).to_set().filter(q) =~= Set::empty());
    }
    while i < ids.len()
        invariant
            m == r.families@,
            f == (|c: u64| m[c].shared_bytes as int),
            p == (|c: u64| completes(*r, sel, c)),
            q == (|c: u64| touches(*r, sel, c)),
            forall|c: u64| count_in(counts@, c) == (#[trigger] chosen(*r, sel, c)).len(),
            ids@.no_duplicates(),
            ids@.to_set() == m.dom(),
            i <= ids@.len(),
            whole <= i,
            bytes <= i * u64::MAX,
            held <= i * u64::MAX,
            ids@.take(i as int).to_set().filter(p).finite(),
            ids@.take(i as int).to_set().filter(q).finite(),
            bytes == sums::sum_over(ids@.take(i as int).to_set().filter(p), f),
            whole == ids@.take(i as int).to_set().filter(p).len(),
            held == sums::sum_over(ids@.take(i as int).to_set().filter(q), f),
        decreases ids@.len() - i,
    {
        let c: u64 = ids[i];
        let ghost before = ids@.take(i as int).to_set();
        let ghost after = ids@.take(i + 1).to_set();
        proof {
            sums::lemma_take_set(ids@, i as int);
            assert(ids@.to_set().contains(c));
            if p(c) {
                assert(after.filter(p) =~= before.filter(p).insert(c));
                sums::lemma_sum_insert(before.filter(p), f, c);
            } else {
                assert(after.filter(p) =~= before.filter(p));
            }
            if q(c) {
                assert(after.filter(q) =~= before.filter(q).insert(c));
                sums::lemma_sum_insert(before.filter(q), f, c);
            } else {
                assert(after.filter(q) =~= before.filter(q));
            }
            assert(i * u64::MAX + u64::MAX <= u128::MAX) by (nonlinear_arith)
                requires
                    i < u64::MAX,
            ;
            assert((i + 1) * u64::MAX == i * u64::MAX + u64::MAX) by (nonlinear_arith);
            assert(count_in(counts@, c) == chosen(*r, sel, c).len());
        }
        let got: u32 = match counts.get(&c) {
            Some(x) => *x,
            None => 0,
        };
        if let Some(x) = r.families.get(&c) {
            if x.refcnt > 1 && got >= x.refcnt {
                bytes = bytes + x.shared_bytes as u128;
                whole = whole + 1;
            } else if got > 0 {
                held = held + x.shared_bytes as u128;
            }
        }
        i = i + 1;
    }
    proof {
        assert(ids@.take(i as int) =~= ids@);
        assert(completed_families(*r, sel) =~= ids@.to_set().filter(p));
        assert(touched_families(*r, sel) =~= ids@.to_set().filter(q));
    }
    (bytes, whole, held)
}

/// What deleting the selected nodes would free, unless a figure is beyond its
/// width.
pub fn try_reclaim(r: &ScanResult, nodes: &[NodeId]) -> (out: Option<Reclaim>)
    requires
        r.tree.nodes@.len() <= u32::MAX,
    ensures
        out is Some <==> reclaim_fits(*r, nodes@),
        out matches Some(x) ==> reclaims(x, *r, nodes@),
{
    let marks = coverage(&r.tree.nodes, nodes);
    let counts = count_chosen(r, Ghost(nodes@), &marks);
    let (shared, whole, held) = weigh_families(r, Ghost(nodes@), &counts);
    let mut exclusive: u128 = 0;
    let mut pinned: u128 = 0;
    let mut physical: u128 = 0;
    let mut files: u64 = 0;
    let mut dirs: u64 = 0;
    let mut unknown: u32 = 0;
    let n: usize = r.tree.nodes.len();
    let mut i: usize = 0;
    while i < n
        invariant
            i <= n,
            n == marks@.len() == r.tree.nodes@.len() <= u32::MAX,
            forall|j: int|
                0 <= j < marks@.len() ==> #[trigger] marks@[j] == covered(
                    r.tree.nodes@,
                    nodes@,
                    j,
                ),
            exclusive <= i * u64::MAX,
            pinned <= i * u64::MAX,
            physical <= i * u64::MAX,
            files <= i,
            dirs <= i,
            unknown <= i,
            (Picked {
                exclusive: exclusive as int,
                pinned: pinned as int,
                physical: physical as int,
                files: files as int,
                dirs: dirs as int,
                unknown: unknown as int,
            }) == picked(r.tree.nodes@, nodes@, i as int),
        decreases n - i,
    {
        if marks[i] {
            let x = &r.tree.nodes[i];
            match x.kind {
                Kind::Dir => {
                    dirs = dirs + 1;
                },
                _ => {
                    exclusive = exclusive + x.size.exclusive as u128;
                    pinned = pinned + x.size.shared_snapshot as u128;
                    physical = physical + x.size.physical as u128;
                },
            }
            if matches!(x.kind, Kind::File) {
                files = files + 1;
            }
            if !matches!(x.state, State::Scanned) {
                unknown = unknown + 1;
            }
        }
        i = i + 1;
    }
    let max: u128 = u64::MAX as u128;
    if shared > max || exclusive > max || exclusive + shared > max || pinned > max || physical > max
        || held > max || whole as u64 > u32::MAX as u64 {
        return None;
    }
    Some(
        Reclaim {
            bytes: (exclusive + shared) as u64,
            from_exclusive: exclusive as u64,
            from_completed_families: shared as u64,
            held_by_clones_outside: held as u64,
            pinned_by_snapshot: pinned as u64,
            physical: physical as u64,
            files,
            dirs,
            families_completed: whole as u32,
            unknown,
        },
    )
}

/// What deleting the selected nodes would free. It is not a sum over the nodes:
/// what clones share is freed only once the last of them goes.
pub fn reclaim(r: &ScanResult, nodes: &[NodeId]) -> (out: Reclaim)
    requires
        r.tree.nodes@.len() <= u32::MAX,
        reclaim_fits(*r, nodes@),
    ensures
        reclaims(out, *r, nodes@),
{
    try_reclaim(r, nodes).unwrap()
}

/// A power of 1024.
pub open spec fn unit(i: int) -> int
    decreases i,
{
    if i <= 0 {
        1
    } else {
        1024 * unit(i - 1)
    }
}

/// The largest unit, up to the sixth, that is at most `r`, looking from the
/// `i`-th on.
pub open spec fn unit_for(r: int, i: int) -> int
    decreases 6 - i,
{
    if i < 6 && r >= unit(i + 1) {
        unit_for(r, i + 1)
    } else {
        i
    }
}

pub open spec fn unit_name(i: int) -> Seq<char> {
    if i == 0 {
        " B"@
    } else if i == 1 {
        " KiB"@
    } else if i == 2 {
        " MiB"@
    } else if i == 3 {
        " GiB"@
    } else if i == 4 {
        " TiB"@
    } else if i == 5 {
        " PiB"@
    } else {
        " EiB"@
    }
}

/// A number of bytes in words: below 1024 as it is, else in the largest binary
/// unit with two decimals, as floating point comes to them.
pub open spec fn human_text(b: int) -> Seq<char> {
    let r = numbers::nearest(b);
    let i = unit_for(r, 0);
    if i == 0 {
        text::decimal(b) + unit_name(0)
    } else {
        let h = numbers::half_even(100 * r, unit(i));
        text::decimal(h / 100).push('.').push(text::digit(h % 100 / 10)).push(text::digit(h % 10))
            + unit_name(i)
    }
}

/// A number of bytes in words, in binary units.
pub fn human(b: u64) -> (s: String)
    ensures
        s@ == human_text(b as int),
{
    let r: u128 = numbers::round(b as u128);
    let mut i: u32 = 0;
    let mut u: u128 = 1;
    while i < 6 && r >= 1024 * u
        invariant
            i <= 6,
            u == unit(i as int),
            1 <= u <= r || u == 1,
            r <= 0x2_0000_0000_0000_0000,
            unit_for(r as int, 0) == unit_for(r as int, i as int),
        decreases 6 - i,
    {
        u = 1024 * u;
        i = i + 1;
    }
    let mut s = String::new();
    if i == 0 {
        text::push_decimal(&mut s, b as u128);
        s.append(" B");
        assert(s@ =~= human_text(b as int));
        return s;
    }
    let h: u128 = numbers::divide(100 * r, u);
    text::push_decimal(&mut s, h / 100);
    foreign::push_char(&mut s, '.');
    foreign::push_char(&mut s, text::digit_of((h % 100 / 10) as u8));
    foreign::push_char(&mut s, text::digit_of((h % 10) as u8));
    let name = match i {
        1 => " KiB",
        2 => " MiB",
        3 => " GiB",
        4 => " TiB",
        5 => " PiB",
        _ => " EiB",
    };
    s.append(name);
    assert(s@ =~= human_text(b as int));
    s
}

/// How what was walked compares with what the kernel says the volume holds.
///
/// The two do not match, and that tells something: snapshots hold blocks that no
/// file refers to, and clones count once for each file.
#[derive(Debug, Clone, Copy, PartialEq, Eq, Structural)]
pub struct Reconciliation {
    pub walked_physical: u64,
    pub volume_used: u64,
    pub volume_total: u64,
    /// What was walked less what is in use.
    pub delta: i64,
}

/// What a difference between what was walked and what is in use means.
pub open spec fn explanation(delta: int) -> Seq<char> {
    if delta > 0 {
        "walk exceeds volume by "@ + human_text(delta)
            + " — clone blocks counted once per file, plus system-volume blocks shared with the seal"@
    } else {
        "volume exceeds walk by "@ + human_text(-delta)
            + " — snapshots, purgeable caches and filesystem metadata that no live file accounts for"@
    }
}

impl Reconciliation {
    /// The comparison in words.
    pub fn explain(&self) -> (s: String)
        requires
            self.delta > i64::MIN,
        ensures
            s@ == explanation(self.delta as int),
    {
        if self.delta > 0 {
            let mut s = String::from_str("walk exceeds volume by ");
            s.append(human(self.delta as u64).as_str());
            s.append(
                " — clone blocks counted once per file, plus system-volume blocks shared with the seal",
            );
            s
        } else {
            let mut s = String::from_str("volume exceeds walk by ");
            s.append(human((-self.delta) as u64).as_str());
            s.append(
                " — snapshots, purgeable caches and filesystem metadata that no live file accounts for",
            );
            s
        }
    }
}

/// The root of the scan is that of a volume whose usage is known.
pub open spec fn comparable(r: ScanResult) -> bool {
    r.root_is_volume_root && r.volume_used != 0
}

/// What was walked less what is in use, each as a signed number of 64 bits.
pub open spec fn difference(r: ScanResult) -> int {
    (r.tree.nodes@[0].size.physical as i64) - (r.volume_used as i64)
}

/// The comparison, where the root of the scan is that of a volume whose usage is
/// known. Anywhere else it would mean nothing.
pub fn reconcile(r: &ScanResult) -> (c: Option<Reconciliation>)
    requires
        r.tree.nodes@.len() > 0,
        comparable(*r) ==> i64::MIN <= difference(*r) <= i64::MAX,
    ensures
        c is Some <==> comparable(*r),
        c matches Some(x) ==> {
            &&& x.walked_physical == r.tree.nodes@[0].size.physical
            &&& x.volume_used == r.volume_used
            &&& x.volume_total == r.volume_total
            &&& x.delta == difference(*r)
        },
{
    if !r.root_is_volume_root || r.volume_used == 0 {
        return None;
    }
    let walked: u64 = r.tree.node(ROOT).size.physical;
    Some(
        Reconciliation {
            walked_physical: walked,
            volume_used: r.volume_used,
            volume_total: r.volume_total,
            delta: walked as i64 - r.volume_used as i64,
        },
    )
}

/// Whether snapshots are why so little can be freed. A file that a snapshot pins
/// owns nothing alone and has no clones, so a large share of such bytes tells.
#[derive(Debug, Clone, Copy, PartialEq, Eq, Structural)]
pub struct SnapshotHint {
    pub likely: bool,
    pub pinned: u64,
    pub physical: u64,
}

/// What is said where so many of the allocated bytes are pinned.
pub open spec fn hint_text(pinned: int, physical: int) -> Seq<char> {
    human_text(pinned) + " ("@ + text::decimal(numbers::percent(pinned, physical))
        + "%) of allocated bytes are pinned by a snapshot or the sealed system volume. Deleting those files frees nothing until the snapshots expire — macOS keeps automatic local Time Machine snapshots by default."@
}

impl SnapshotHint {
    /// The hint in words, if it applies.
    pub fn message(&self) -> (m: Option<String>)
        ensures
            m is Some <==> self.likely,
            m matches Some(s) ==> s@ == hint_text(self.pinned as int, self.physical as int),
    {
        if !self.likely {
            return None;
        }
        let mut s = human(self.pinned);
        s.append(" (");
        text::push_decimal(&mut s, numbers::percentage(self.pinned, self.physical));
        s.append(
            "%) of allocated bytes are pinned by a snapshot or the sealed system volume. Deleting those files frees nothing until the snapshots expire — macOS keeps automatic local Time Machine snapshots by default.",
        );
        Some(s)
    }
}

/// More than a quarter of what is allocated is pinned.
pub open spec fn pinned_share(r: ScanResult) -> bool {
    let size = r.tree.nodes@[0].size;
    size.physical > 0 && size.shared_snapshot * 4 > size.physical
}

/// The hint for a scan: it is likely where more than a quarter of what is
/// allocated is pinned.
pub fn snapshot_hint(r: &ScanResult) -> (h: SnapshotHint)
    requires
        r.tree.nodes@.len() > 0,
    ensures
        h.pinned == r.tree.nodes@[0].size.shared_snapshot,
        h.physical == r.tree.nodes@[0].size.physical,
        h.likely <==> pinned_share(*r),
{
    let root = r.tree.node(ROOT);
    let pinned: u64 = root.size.shared_snapshot;
    let physical: u64 = root.size.physical;
    SnapshotHint {
        likely: physical > 0 && pinned as u128 * 4 > physical as u128,
        pinned,
        physical,
    }
}

/// Whether the totals of a scan are a lower bound only.
pub fn is_partial(r: &ScanResult) -> (p: bool)
    requires
        r.tree.nodes@.len() > 0,
    ensures
        p <==> r.stats.denied_tcc > 0 || r.stats.denied_perm > 0 || r.stats.errors > 0
            || r.tree.nodes@[0].unknown_below > 0,
{
    r.stats.denied_tcc > 0 || r.stats.denied_perm > 0 || r.stats.errors > 0 || r.tree.node(
        ROOT,
    ).unknown_below > 0
}

/// The sign that a node is listed with: a blank if it is complete, a tilde if
/// something below it is not, and an exclamation mark if it is not itself.
pub fn mark(n: &Node) -> (c: char)
    ensures
        c == (if !(n.state is Scanned) {
            '!'
        } else if n.unknown_below > 0 {
            '~'
        } else {
            ' '
        }),
{
    if !matches!(n.state, State::Scanned) {
        '!'
    } else if n.unknown_below > 0 {
        '~'
    } else {
        ' '
    }
}

/// The ids below `n` of the nodes of a kind.
pub open spec fn of_kind(nodes: Seq<Node>, kind: Kind, n: int) -> Seq<NodeId>
    decreases n,
{
    if n <= 0 {
        Seq::empty()
    } else if nodes[n - 1].kind == kind {
        of_kind(nodes, kind, n - 1).push((n - 1) as NodeId)
    } else {
        of_kind(nodes, kind, n - 1)
    }
}

/// The nodes of a kind with the most bytes allocated, the largest first, `top`
/// of them at most.
pub fn largest(tree: &Tree, kind: Kind, top: usize) -> (r: Vec<NodeId>)
    requires
        tree.wf(),
    ensures
        exists|all: Seq<NodeId>|
            {
                &&& #[trigger] order::same_ids(
                    all,
                    of_kind(tree.nodes@, kind, tree.nodes@.len() as int),
                )
                &&& order::sorted(
                    (ByColumn { tree, column: Column::Physical, descending: true }),
                    all,
                )
                &&& r@ == all.take(if top <= all.len() {
                    top as int
                } else {
                    all.len() as int
                })
            },
        r@.len() <= top,
        r@.no_duplicates(),
        forall|k: int|
            0 <= k < r@.len() ==> (#[trigger] r@[k]) < tree.nodes@.len() && tree.nodes@[
                r@[k] as int
            ].kind == kind,
        forall|id: NodeId, k: int|
            #![trigger r@.contains(id), r@[k]]
            id < tree.nodes@.len() && tree.nodes@[id as int].kind == kind && !r@.contains(id) && 0
                <= k < r@.len() ==> tree.nodes@[id as int].size.physical
                <= tree.nodes@[r@[k] as int].size.physical,
{
    let n: usize = tree.nodes.len();
    let mut ids: Vec<NodeId> = Vec::new();
    let mut i: usize = 0;
    while i < n
        invariant
            i <= n,
            n == tree.nodes@.len() <= u32::MAX,
            ids@ == of_kind(tree.nodes@, kind, i as int),
            forall|k: int| 0 <= k < ids@.len() ==> (#[trigger] ids@[k]) < i,
        decreases n - i,
    {
        if tree.nodes[i].kind == kind {
            ids.push(i as NodeId);
        }
        i = i + 1;
    }
    let by = ByColumn { tree, column: Column::Physical, descending: true };
    let mut all = order::sort(ids, &by);
    let ghost whole = all@;
    all.truncate(top);
    proof {
        if top > whole.len() {
            assert(whole.take(whole.len() as int) =~= whole);
        }
        assert(order::same_ids(whole, of_kind(tree.nodes@, kind, tree.nodes@.len() as int)));
        ordering::law_the_largest_come_first(*tree, kind, whole, top, all@);
    }
    all
}

} // verus!
