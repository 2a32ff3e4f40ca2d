//! What a front end in another language is told of a scan.
//!
//! The tree stays here. A front end holds a scan by a handle and asks narrow
//! questions, which are answered by values of fixed size or by bytes. An id that
//! the tree does not have is an expected input, and so is a missing handle: both
//! are answered by something neutral.

use vstd::prelude::*;
use vstd::slice::{slice_subrange, slice_to_vec};
use crate::model;
use crate::model::{kind_code, state_code, NodeId, Sizes, NO_NODE, ROOT};
use crate::order;
use crate::order::{ByColumn, Column};
use crate::plan;
use crate::report;
use crate::report::Reclaim;
use crate::scan::ScanResult;
use crate::sys::tcc::{Access, SETTINGS_URL};

verus! {

broadcast use vstd::std_specs::hash::group_hash_axioms;

#[derive(Clone, Copy, Debug, PartialEq, Eq, Structural)]
pub struct DsSizes {
    pub logical: u64,
    pub physical: u64,
    pub exclusive: u64,
    pub shared_clones: u64,
    pub shared_snapshot: u64,
    pub sparse_saving: u64,
}

#[derive(Clone, Copy, Debug, PartialEq, Eq, Structural)]
pub struct DsRow {
    pub node: u32,
    pub child_count: u32,
    pub unknown_below: u32,
    pub kind: u8,
    pub state: u8,
    pub hardlink_alias: u8,
    pub is_clone: u8,
    pub mtime: i64,
    pub size: DsSizes,
}

#[derive(Clone, Copy, Debug, PartialEq, Eq, Structural)]
pub struct DsReclaim {
    pub bytes: u64,
    pub from_exclusive: u64,
    pub from_completed_families: u64,
    pub held_by_clones_outside: u64,
    pub pinned_by_snapshot: u64,
    pub physical: u64,
    pub files: u64,
    pub dirs: u64,
    pub families_completed: u32,
    pub unknown: u32,
}

#[derive(Clone, Copy, Debug, PartialEq, Eq, Structural)]
pub struct DsReconcile {
    pub walked_physical: u64,
    pub volume_used: u64,
    pub volume_total: u64,
    pub delta: i64,
}

#[derive(Clone, Copy, Debug, PartialEq, Eq, Structural)]
pub struct DsSummary {
    pub root: DsSizes,
    pub dirs: u64,
    pub files: u64,
    pub symlinks: u64,
    pub hardlink_aliases: u64,
    pub dataless: u64,
    pub compressed: u64,
    pub sparse: u64,
    pub clone_members: u64,
    pub denied_tcc: u64,
    pub denied_perm: u64,
    pub errors: u64,
    pub volume_used: u64,
    pub volume_total: u64,
    pub clone_reclaimable: u64,
    pub node_count: u64,
    pub arena_bytes: u64,
    pub elapsed_nanos: u128,
    pub root_unknown_below: u32,
    pub clone_families_whole: u32,
    pub clone_families_total: u32,
    pub skipped_mounts: u32,
    pub cancelled: u8,
    pub root_is_volume_root: u8,
}

pub const DS_SORT_PHYSICAL: i32 = 0;

pub const DS_SORT_EXCLUSIVE: i32 = 1;

pub const DS_SORT_LOGICAL: i32 = 2;

pub const DS_SORT_NAME: i32 = 3;

pub const DS_SORT_MTIME: i32 = 4;

/// A finished scan, as a front end holds it.
pub struct DsScan {
    pub r: ScanResult,
}

/// The children of a node in the order asked for.
pub struct Sorted {
    pub node: NodeId,
    pub sort: i32,
    pub descending: bool,
    pub ids: Vec<NodeId>,
}

/// The order of the children of one node, kept from one request to the next: a
/// front end that scrolls asks for the same order again and again.
pub struct SortCache {
    pub entry: Option<Sorted>,
}

pub open spec fn number(b: bool) -> u8 {
    if b {
        1
    } else {
        0
    }
}

fn flag(b: bool) -> (r: u8)
    ensures
        r == number(b),
{
    if b {
        1
    } else {
        0
    }
}

pub open spec fn sizes_row(s: Sizes) -> DsSizes {
    DsSizes {
        logical: s.logical,
        physical: s.physical,
        exclusive: s.exclusive,
        shared_clones: s.shared_clones,
        shared_snapshot: s.shared_snapshot,
        sparse_saving: s.sparse_saving,
    }
}

pub fn sizes(s: &Sizes) -> (r: DsSizes)
    ensures
        r == sizes_row(*s),
{
    DsSizes {
        logical: s.logical,
        physical: s.physical,
        exclusive: s.exclusive,
        shared_clones: s.shared_clones,
        shared_snapshot: s.shared_snapshot,
        sparse_saving: s.sparse_saving,
    }
}

/// What goes into a buffer of `cap` bytes for the bytes `s`: as many of them as
/// leave room for a NUL behind them.
pub open spec fn terminated(s: Seq<u8>, cap: int) -> Seq<u8> {
    if cap <= 0 {
        Seq::empty()
    } else if s.len() < cap {
        s.push(0)
    } else {
        s.take(cap - 1).push(0)
    }
}

pub fn out_str(s: &[u8], cap: usize) -> (r: Vec<u8>)
    ensures
        r@ == terminated(s@, cap as int),
        r@.len() <= cap,
{
    if cap == 0 {
        let v: Vec<u8> = Vec::new();
        assert(v@ =~= terminated(s@, cap as int));
        return v;
    }
    let n: usize = if s.len() < cap {
        s.len()
    } else {
        cap - 1
    };
    let mut v = slice_to_vec(slice_subrange(s, 0, n));
    v.push(0);
    assert(v@ =~= terminated(s@, cap as int));
    v
}

impl DsScan {
    pub open spec fn wf(&self) -> bool {
        self.r.wf()
    }

    pub open spec fn has(&self, node: u32) -> bool {
        node < self.r.tree.nodes@.len()
    }

    pub fn valid(&self, node: u32) -> (r: bool)
        ensures
            r == self.has(node),
    {
        (node as usize) < self.r.tree.len()
    }
}

/// A handle that is there, and an id that the tree has.
pub open spec fn answers(scan: Option<&DsScan>, node: u32) -> bool {
    scan is Some && scan->0.has(node)
}

/// What is told of a node.
pub open spec fn row(sc: DsScan, id: NodeId) -> DsRow {
    let n = sc.r.tree.nodes@[id as int];
    DsRow {
        node: id,
        child_count: n.child_count,
        unknown_below: n.unknown_below,
        kind: model::kind_number(n.kind),
        state: model::state_number(n.state),
        hardlink_alias: number(n.hardlink_alias),
        is_clone: number(sc.r.clone_of@.contains_key(id)),
        mtime: n.mtime,
        size: sizes_row(n.size),
    }
}

pub fn row_of(sc: &DsScan, id: NodeId) -> (r: DsRow)
    requires
        sc.has(id),
    ensures
        r == row(*sc, id),
{
    let n = sc.r.tree.node(id);
    DsRow {
        node: id,
        child_count: n.child_count,
        unknown_below: n.unknown_below,
        kind: kind_code(n.kind()),
        state: state_code(n.state()),
        hardlink_alias: flag(n.hardlink_alias),
        is_clone: flag(sc.r.clone_of.contains_key(&id)),
        mtime: n.mtime,
        size: sizes(&n.size),
    }
}

pub fn ds_full_disk_access(access: Access) -> (r: i32)
    ensures
        r == (match access {
            Access::Full => 0i32,
            Access::Denied => 1,
            Access::Unknown => 2,
        }),
{
    match access {
        Access::Full => 0,
        Access::Denied => 1,
        Access::Unknown => 2,
    }
}

pub fn ds_fda_settings_url() -> (r: &'static str)
    ensures
        r == SETTINGS_URL,
{
    SETTINGS_URL
}

pub fn ds_root() -> (r: u32)
    ensures
        r == ROOT,
{
    ROOT
}

pub fn ds_node_count(scan: Option<&DsScan>) -> (r: u32)
    requires
        scan is Some ==> scan->0.wf(),
    ensures
        r == (match scan {
            Some(s) => s.r.tree.nodes@.len() as int,
            None => 0,
        }),
{
    match scan {
        Some(s) => s.r.tree.len() as u32,
        None => 0,
    }
}

pub fn ds_parent(scan: Option<&DsScan>, node: u32) -> (r: u32)
    ensures
        r == (if answers(scan, node) {
            scan->0.r.tree.nodes@[node as int].parent
        } else {
            NO_NODE
        }),
{
    match scan {
        Some(s) if s.valid(node) => s.r.tree.node(node).parent,
        _ => NO_NODE,
    }
}

pub fn ds_row(scan: Option<&DsScan>, node: u32) -> (r: Option<DsRow>)
    ensures
        r == (if answers(scan, node) {
            Some(row(*scan->0, node))
        } else {
            None
        }),
{
    match scan {
        Some(s) if s.valid(node) => Some(row_of(s, node)),
        _ => None,
    }
}

/// The name of a node, or nothing.
pub fn ds_name(scan: Option<&DsScan>, node: u32) -> (r: Vec<u8>)
    requires
        scan is Some ==> scan->0.wf(),
    ensures
        r@ == (if answers(scan, node) {
            scan->0.r.tree.name_of(node as int)
        } else {
            Seq::empty()
        }),
{
    match scan {
        Some(s) if s.valid(node) => slice_to_vec(s.r.tree.name(node)),
        _ => Vec::new(),
    }
}

/// The path of a node, or nothing.
pub fn ds_path(scan: Option<&DsScan>, node: u32) -> (r: Vec<u8>)
    requires
        scan is Some ==> scan->0.wf(),
    ensures
        r@ == (if answers(scan, node) {
            scan->0.r.tree.path_of(node as int)
        } else {
            Seq::empty()
        }),
{
    match scan {
        Some(s) if s.valid(node) => s.r.tree.path(node),
        _ => Vec::new(),
    }
}

/// What a number of a front end asks to sort by. Anything unknown means by the
/// bytes allocated.
pub open spec fn column(sort: i32) -> Column {
    if sort == DS_SORT_NAME {
        Column::Name
    } else if sort == DS_SORT_MTIME {
        Column::Mtime
    } else if sort == DS_SORT_EXCLUSIVE {
        Column::Exclusive
    } else if sort == DS_SORT_LOGICAL {
        Column::Logical
    } else {
        Column::Physical
    }
}

pub fn column_of(sort: i32) -> (r: Column)
    ensures
        r == column(sort),
{
    if sort == DS_SORT_NAME {
        Column::Name
    } else if sort == DS_SORT_MTIME {
        Column::Mtime
    } else if sort == DS_SORT_EXCLUSIVE {
        Column::Exclusive
    } else if sort == DS_SORT_LOGICAL {
        Column::Logical
    } else {
        Column::Physical
    }
}

/// The ids are those of the children of a node, in the order asked for.
pub open spec fn children_in_order(
    sc: DsScan,
    node: NodeId,
    sort: i32,
    descending: bool,
    ids: Seq<NodeId>,
) -> bool {
    &&& order::same_ids(ids, model::block(sc.r.tree.nodes@[node as int]))
    &&& order::sorted(
        (ByColumn { tree: &sc.r.tree, column: column(sort), descending }),
        ids,
    )
}

/// The children of a node in the order asked for. There is one such order: of
/// children that are equal in the column, the smaller id comes first, and last
/// where the order descends.
pub open spec fn ordered_children(
    sc: DsScan,
    node: NodeId,
    sort: i32,
    descending: bool,
) -> Seq<NodeId> {
    choose|ids: Seq<NodeId>| children_in_order(sc, node, sort, descending, ids)
}

/// Whatever is in the order asked for is the one order.
pub proof fn lemma_ordered_children(
    sc: DsScan,
    node: NodeId,
    sort: i32,
    descending: bool,
    ids: Seq<NodeId>,
)
    requires
        children_in_order(sc, node, sort, descending, ids),
    ensures
        children_in_order(
            sc,
            node,
            sort,
            descending,
            ordered_children(sc, node, sort, descending),
        ),
        ids == ordered_children(sc, node, sort, descending),
{
    order::lemma_one_order(
        ByColumn { tree: &sc.r.tree, column: column(sort), descending },
        ids,
        ordered_children(sc, node, sort, descending),
    );
}

impl SortCache {
    /// What is kept is right for this scan.
    pub open spec fn matches(&self, sc: DsScan) -> bool {
        match self.entry {
            None => true,
            Some(e) => sc.has(e.node) && children_in_order(
                sc,
                e.node,
                e.sort,
                e.descending,
                e.ids@,
            ),
        }
    }

    /// The order asked for is the one that is kept.
    pub open spec fn holds(&self, node: NodeId, sort: i32, descending: bool) -> bool {
        self.entry matches Some(e) && e.node == node && e.sort == sort && e.descending == descending
    }

    pub fn new() -> (r: SortCache)
        ensures
            r.entry is None,
    {
        SortCache { entry: None }
    }

    fn is_hit(&self, node: NodeId, sort: i32, descending: bool) -> (r: bool)
        ensures
            r == self.holds(node, sort, descending),
    {
        match &self.entry {
            Some(e) => e.node == node && e.sort == sort && e.descending == descending,
            None => false,
        }
    }
}

/// The part of a list that starts at `offset`, of `cap` items at most.
pub open spec fn window(ids: Seq<NodeId>, offset: int, cap: int) -> Seq<NodeId> {
    if offset >= ids.len() {
        Seq::empty()
    } else if ids.len() - offset <= cap {
        ids.skip(offset)
    } else {
        ids.subrange(offset, offset + cap)
    }
}

/// The children of a node in the order asked for: `cap` of them at most, from
/// the place `offset` on. The order depends on nothing but the scan, the node and
/// what is asked for, so that windows side by side show every child once.
pub fn ds_children(
    scan: Option<&DsScan>,
    cache: &mut SortCache,
    node: u32,
    sort: i32,
    descending: bool,
    offset: usize,
    cap: usize,
) -> (r: Vec<DsRow>)
    requires
        scan is Some ==> scan->0.wf() && old(cache).matches(*scan->0),
    ensures
        !answers(scan, node) || cap == 0 ==> r@.len() == 0 && *final(cache) == *old(cache),
        answers(scan, node) && cap > 0 ==> {
            &&& final(cache).holds(node, sort, descending)
            &&& final(cache).matches(*scan->0)
            &&& old(cache).holds(node, sort, descending) ==> *final(cache) == *old(cache)
            &&& children_in_order(
                *scan->0,
                node,
                sort,
                descending,
                ordered_children(*scan->0, node, sort, descending),
            )
            &&& r@ == window(
                ordered_children(*scan->0, node, sort, descending),
                offset as int,
                cap as int,
            ).map_values(|id: NodeId| row(*scan->0, id))
        },
{
    let s = match scan {
        Some(s) => s,
        None => return Vec::new(),
    };
    if !s.valid(node) || cap == 0 {
        return Vec::new();
    }
    if !cache.is_hit(node, sort, descending) {
        let ids = s.r.tree.child_ids(node);
        let by = ByColumn { tree: &s.r.tree, column: column_of(sort), descending };
        let sorted = order::sort(ids, &by);
        cache.entry = Some(Sorted { node, sort, descending, ids: sorted });
    }
    let mut rows: Vec<DsRow> = Vec::new();
    if let Some(e) = &cache.entry {
        let ids = &e.ids;
        proof {
            lemma_ordered_children(*s, node, sort, descending, ids@);
        }
        let n: usize = if offset >= ids.len() {
            0
        } else if ids.len() - offset <= cap {
            ids.len() - offset
        } else {
            cap
        };
        let ghost w = window(ids@, offset as int, cap as int);
        let mut k: usize = 0;
        while k < n
            invariant
                s.wf(),
                s.has(node),
                children_in_order(*s, node, sort, descending, ids@),
                w == window(ids@, offset as int, cap as int),
                n == w.len(),
                n > 0 ==> offset + n <= ids.len(),
                k <= n,
                rows@.len() == k,
                forall|j: int| 0 <= j < k ==> #[trigger] rows@[j] == row(*s, w[j]),
            decreases n - k,
        {
            let id: NodeId = ids[offset + k];
            proof {
                let block = model::block(s.r.tree.nodes@[node as int]);
                order::lemma_same_ids_contains(ids@, block, id);
                assert(ids@.contains(id));
                let j = choose|j: int| 0 <= j < block.len() && block[j] == id;
                assert(s.r.tree.nodes@[node as int].child_count > 0);
            }
            rows.push(row_of(s, id));
            k = k + 1;
        }
        assert(rows@ =~= w.map_values(|id: NodeId| row(*s, id)));
    }
    rows
}

pub open spec fn reclaim_row(x: Reclaim) -> DsReclaim {
    DsReclaim {
        bytes: x.bytes,
        from_exclusive: x.from_exclusive,
        from_completed_families: x.from_completed_families,
        held_by_clones_outside: x.held_by_clones_outside,
        pinned_by_snapshot: x.pinned_by_snapshot,
        physical: x.physical,
        files: x.files,
        dirs: x.dirs,
        families_completed: x.families_completed,
        unknown: x.unknown,
    }
}

/// What deleting the nodes would free.
pub fn ds_reclaim(scan: Option<&DsScan>, nodes: &[u32]) -> (r: Option<DsReclaim>)
    requires
        scan is Some ==> scan->0.wf(),
    ensures
        r is Some <==> scan is Some && report::reclaim_fits(scan->0.r, nodes@),
        r matches Some(x) ==> exists|y: Reclaim| #[trigger]
            report::reclaims(y, scan->0.r, nodes@) && x == reclaim_row(y),
{
    let s = scan?;
    let x = report::try_reclaim(&s.r, nodes)?;
    let out = DsReclaim {
        bytes: x.bytes,
        from_exclusive: x.from_exclusive,
        from_completed_families: x.from_completed_families,
        held_by_clones_outside: x.held_by_clones_outside,
        pinned_by_snapshot: x.pinned_by_snapshot,
        physical: x.physical,
        files: x.files,
        dirs: x.dirs,
        families_completed: x.families_completed,
        unknown: x.unknown,
    };
    assert(report::reclaims(x, s.r, nodes@) && out == reclaim_row(x));
    Some(out)
}

/// The summary of a scan, where its arena takes so many bytes.
pub open spec fn summary(r: ScanResult, arena_bytes: u64) -> DsSummary {
    let root = r.tree.nodes@[0];
    let whole = report::whole_families(r.families@);
    DsSummary {
        root: sizes_row(root.size),
        dirs: r.stats.dirs,
        files: r.stats.files,
        symlinks: r.stats.symlinks,
        hardlink_aliases: r.stats.hardlink_aliases,
        dataless: r.stats.dataless,
        compressed: r.stats.compressed,
        sparse: r.stats.sparse,
        clone_members: r.stats.clone_members,
        denied_tcc: r.stats.denied_tcc,
        denied_perm: r.stats.denied_perm,
        errors: r.stats.errors,
        volume_used: r.volume_used,
        volume_total: r.volume_total,
        clone_reclaimable: report::shared_by(r.families@, whole) as u64,
        node_count: r.tree.nodes@.len() as u64,
        arena_bytes,
        elapsed_nanos: r.stats.elapsed_nanos,
        root_unknown_below: root.unknown_below,
        clone_families_whole: whole.len() as usize as u32,
        clone_families_total: r.families@.len() as usize as u32,
        skipped_mounts: r.skipped@.len() as usize as u32,
        cancelled: number(r.cancelled),
        root_is_volume_root: number(r.root_is_volume_root),
    }
}

pub fn summary_with(r: &ScanResult, arena_bytes: u64) -> (s: DsSummary)
    requires
        r.wf(),
        report::shared_by(r.families@, report::whole_families(r.families@)) <= u64::MAX,
    ensures
        s == summary(*r, arena_bytes),
{
    let root = r.tree.node(ROOT);
    let (clone_reclaimable, whole, total) = report::reclaimable_from_clones(r);
    DsSummary {
        root: sizes(&root.size),
        dirs: r.stats.dirs,
        files: r.stats.files,
        symlinks: r.stats.symlinks,
        hardlink_aliases: r.stats.hardlink_aliases,
        dataless: r.stats.dataless,
        compressed: r.stats.compressed,
        sparse: r.stats.sparse,
        clone_members: r.stats.clone_members,
        denied_tcc: r.stats.denied_tcc,
        denied_perm: r.stats.denied_perm,
        errors: r.stats.errors,
        volume_used: r.volume_used,
        volume_total: r.volume_total,
        clone_reclaimable,
        node_count: r.tree.len() as u64,
        arena_bytes,
        elapsed_nanos: r.stats.elapsed_nanos,
        root_unknown_below: root.unknown_below,
        clone_families_whole: whole as u32,
        clone_families_total: total as u32,
        skipped_mounts: r.skipped.len() as u32,
        cancelled: flag(r.cancelled),
        root_is_volume_root: flag(r.root_is_volume_root),
    }
}

/// The summary of a scan. How many bytes its arena takes is up to the allocator.
pub fn ds_summary(scan: Option<&DsScan>) -> (r: Option<DsSummary>)
    requires
        scan is Some ==> scan->0.wf(),
    ensures
        r is Some <==> scan is Some && report::shared_by(
            scan->0.r.families@,
            report::whole_families(scan->0.r.families@),
        ) <= u64::MAX,
        r matches Some(s) ==> s == summary(scan->0.r, s.arena_bytes) && s.arena_bytes
            >= scan->0.r.tree.nodes@.len() * vstd::layout::size_of::<model::Node>()
            + scan->0.r.tree.names@.len() && s.arena_bytes <= 2 * isize::MAX,
{
    let s = scan?;
    if report::clone_totals(&s.r).0 > u64::MAX as u128 {
        return None;
    }
    let arena: usize = s.r.tree.memory_bytes();
    Some(summary_with(&s.r, arena as u64))
}

pub fn ds_reconcile(scan: Option<&DsScan>) -> (r: Option<DsReconcile>)
    requires
        scan is Some ==> scan->0.wf(),
        scan is Some && report::comparable(scan->0.r) ==> i64::MIN <= report::difference(scan->0.r)
            <= i64::MAX,
    ensures
        r is Some <==> scan is Some && report::comparable(scan->0.r),
        r matches Some(x) ==> {
            &&& x.walked_physical == scan->0.r.tree.nodes@[0].size.physical
            &&& x.volume_used == scan->0.r.volume_used
            &&& x.volume_total == scan->0.r.volume_total
            &&& x.delta == report::difference(scan->0.r)
        },
{
    match scan {
        Some(s) => {
            match report::reconcile(&s.r) {
                Some(c) => Some(
                    DsReconcile {
                        walked_physical: c.walked_physical,
                        volume_used: c.volume_used,
                        volume_total: c.volume_total,
                        delta: c.delta,
                    },
                ),
                None => None,
            }
        },
        None => None,
    }
}

/// The mounts that were not entered: how many there are.
pub fn ds_skipped_count(scan: Option<&DsScan>) -> (r: usize)
    ensures
        r == (match scan {
            Some(s) => s.r.skipped@.len() as int,
            None => 0,
        }),
{
    match scan {
        Some(s) => s.r.skipped.len(),
        None => 0,
    }
}

/// A mount that was not entered, and why.
pub fn ds_skipped(scan: Option<&DsScan>, index: usize) -> (r: Option<(Vec<u8>, &'static str)>)
    ensures
        r is Some <==> scan is Some && index < scan->0.r.skipped@.len(),
        r matches Some(p) ==> (p.0@, p.1@) == plan::notes_of(scan->0.r.skipped@)[index as int],
{
    match scan {
        Some(s) if index < s.r.skipped.len() => {
            let p = &s.r.skipped[index];
            Some((slice_to_vec(p.0.as_slice()), p.1))
        },
        _ => None,
    }
}

/// The comparison with the volume in words, or nothing where it does not apply.
pub fn ds_reconcile_text(scan: Option<&DsScan>) -> (r: String)
    requires
        scan is Some ==> scan->0.wf(),
        scan is Some && report::comparable(scan->0.r) ==> i64::MIN < report::difference(scan->0.r)
            <= i64::MAX,
    ensures
        r@ == (if scan is Some && report::comparable(scan->0.r) {
            report::explanation(report::difference(scan->0.r))
        } else {
            Seq::empty()
        }),
{
    match scan {
        Some(s) => {
            match report::reconcile(&s.r) {
                Some(c) => c.explain(),
                None => String::new(),
            }
        },
        None => String::new(),
    }
}

/// Why so little can be freed, in words, or nothing where it does not apply.
pub fn ds_snapshot_hint(scan: Option<&DsScan>) -> (r: String)
    requires
        scan is Some ==> scan->0.wf(),
    ensures
        r@ == (if scan is Some && report::pinned_share(scan->0.r) {
            report::hint_text(
                scan->0.r.tree.nodes@[0].size.shared_snapshot as int,
                scan->0.r.tree.nodes@[0].size.physical as int,
            )
        } else {
            Seq::empty()
        }),
{
    match scan {
        Some(s) => {
            match report::snapshot_hint(&s.r).message() {
                Some(m) => m,
                None => String::new(),
            }
        },
        None => String::new(),
    }
}

/// A number of bytes in words.
pub fn ds_human(bytes: u64) -> (r: String)
    ensures
        r@ == report::human_text(bytes as int),
{
    report::human(bytes)
}

} // verus!
