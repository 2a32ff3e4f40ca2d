//! What is told of nodes and scans, and how buffers and labels are made up.

use vstd::prelude::*;
use crate::ffi;
use crate::ffi::DsScan;
use crate::model::{Kind, NodeId, State};
use crate::report;
use crate::report::Reclaim;
use crate::scan::ScanResult;
use crate::sys::mounts;
use crate::sys::tcc;
use super::walking;

verus! {

/// What a NUL-terminated buffer holds is what stands before the first NUL, or all
/// of it if there is none.
pub proof fn law_a_text_ends_at_the_first_nul(buf: Seq<u8>)
    ensures
        ({
            let s = mounts::until_nul(buf);
            &&& s.len() <= buf.len()
            &&& forall|i: int| 0 <= i < s.len() ==> #[trigger] s[i] == buf[i] && s[i] != 0
            &&& s.len() < buf.len() ==> buf[s.len() as int] == 0
        }),
{
    lemma_first_nul(buf, 0);
}

proof fn lemma_first_nul(buf: Seq<u8>, i: int)
    requires
        0 <= i <= buf.len(),
    ensures
        ({
            let n = mounts::first_nul(buf, i);
            &&& i <= n <= buf.len()
            &&& forall|k: int| i <= k < n ==> buf[k] != 0
            &&& n < buf.len() ==> buf[n] == 0
        }),
    decreases buf.len() - i,
{
    if i < buf.len() && buf[i] != 0 {
        lemma_first_nul(buf, i + 1);
    }
}

/// A text that is handed out is cut off if there is too little room, and always ends
/// with a NUL, unless there is no room at all.
pub proof fn law_a_text_is_handed_out_with_a_nul(s: Seq<u8>, cap: int)
    requires
        cap >= 0,
    ensures
        ({
            let r = ffi::terminated(s, cap);
            &&& cap == 0 ==> r.len() == 0
            &&& cap > 0 ==> {
                &&& r.len() == cap || r.len() == s.len() + 1
                &&& r.len() <= cap && r.len() <= s.len() + 1
                &&& r[r.len() - 1] == 0
                &&& forall|i: int| 0 <= i < r.len() - 1 ==> #[trigger] r[i] == s[i]
            }
        }),
{
}

/// A row tells of its node; it is marked as a clone just if it belongs to a family.
pub proof fn law_a_row_tells_of_its_node(sc: DsScan, id: NodeId)
    ensures
        ({
            let r = ffi::row(sc, id);
            let n = sc.r.tree.nodes@[id as int];
            &&& r.node == id
            &&& r.child_count == n.child_count
            &&& r.unknown_below == n.unknown_below
            &&& r.kind == (match n.kind {
                Kind::Dir => 0u8,
                Kind::File => 1u8,
                Kind::Symlink => 2u8,
                Kind::Other => 3u8,
            })
            &&& r.state == (match n.state {
                State::Scanned => 0u8,
                State::DeniedTcc => 1u8,
                State::DeniedPerm => 2u8,
                State::Error => 3u8,
                State::Skipped => 4u8,
            })
            &&& r.hardlink_alias == walking::counts(n.hardlink_alias)
            &&& r.is_clone == walking::counts(sc.r.clone_of@.contains_key(id))
            &&& r.mtime == n.mtime
            &&& r.size.logical == n.size.logical
            &&& r.size.physical == n.size.physical
            &&& r.size.exclusive == n.size.exclusive
            &&& r.size.shared_clones == n.size.shared_clones
            &&& r.size.shared_snapshot == n.size.shared_snapshot
            &&& r.size.sparse_saving == n.size.sparse_saving
        }),
{
}

/// The summary of a scan repeats its counts and the sums of its root.
pub proof fn law_a_summary_tells_of_its_scan(r: ScanResult, arena: u64)
    ensures
        ({
            let s = ffi::summary(r, arena);
            let root = r.tree.nodes@[0];
            &&& s.root.logical == root.size.logical
            &&& s.root.physical == root.size.physical
            &&& s.root.exclusive == root.size.exclusive
            &&& s.root.shared_clones == root.size.shared_clones
            &&& s.root.shared_snapshot == root.size.shared_snapshot
            &&& s.root.sparse_saving == root.size.sparse_saving
            &&& s.root_unknown_below == root.unknown_below
            &&& s.dirs == r.stats.dirs
            &&& s.files == r.stats.files
            &&& s.symlinks == r.stats.symlinks
            &&& s.hardlink_aliases == r.stats.hardlink_aliases
            &&& s.dataless == r.stats.dataless
            &&& s.compressed == r.stats.compressed
            &&& s.sparse == r.stats.sparse
            &&& s.clone_members == r.stats.clone_members
            &&& s.denied_tcc == r.stats.denied_tcc
            &&& s.denied_perm == r.stats.denied_perm
            &&& s.errors == r.stats.errors
            &&& s.elapsed_nanos == r.stats.elapsed_nanos
            &&& s.volume_used == r.volume_used
            &&& s.volume_total == r.volume_total
            &&& s.arena_bytes == arena
            &&& s.cancelled == walking::counts(r.cancelled)
            &&& s.root_is_volume_root == walking::counts(r.root_is_volume_root)
            &&& r.tree.nodes@.len() <= u32::MAX ==> s.node_count == r.tree.nodes@.len()
            &&& r.families@.len() <= u32::MAX ==> s.clone_families_total == r.families@.len()
            &&& r.skipped@.len() <= u32::MAX ==> s.skipped_mounts == r.skipped@.len()
            &&& report::whole_families(r.families@).len() <= u32::MAX ==> s.clone_families_whole
                == report::whole_families(r.families@).len()
            &&& 0 <= report::shared_by(r.families@, report::whole_families(r.families@))
                <= u64::MAX ==> s.clone_reclaimable == report::shared_by(
                r.families@,
                report::whole_families(r.families@),
            )
        }),
{
}

/// The figures on a selection are handed out as they are.
pub proof fn law_reclaim_figures_are_handed_out(x: Reclaim)
    ensures
        ({
            let r = ffi::reclaim_row(x);
            &&& r.bytes == x.bytes
            &&& r.from_exclusive == x.from_exclusive
            &&& r.from_completed_families == x.from_completed_families
            &&& r.held_by_clones_outside == x.held_by_clones_outside
            &&& r.pinned_by_snapshot == x.pinned_by_snapshot
            &&& r.physical == x.physical
            &&& r.files == x.files
            &&& r.dirs == x.dirs
            &&& r.families_completed == x.families_completed
            &&& r.unknown == x.unknown
        }),
{
}

/// Behind `i` the path goes on with the extension of a bundle and a slash.
pub open spec fn ends_bundle(path: Seq<char>, i: int) -> bool {
    0 <= i && i + 5 <= path.len() && path.subrange(i, i + 5) == seq!['.', 'a', 'p', 'p', '/']
}

proof fn lemma_ends_bundle(path: Seq<char>, i: int)
    ensures
        ends_bundle(path, i) == tcc::bundle_ends(path, i),
{
    if 0 <= i && i + 5 <= path.len() {
        let s = path.subrange(i, i + 5);
        let t = seq!['.', 'a', 'p', 'p', '/'];
        if tcc::bundle_ends(path, i) {
            assert(s =~= t);
        }
        if s == t {
            assert(s[0] == t[0] && s[1] == t[1] && s[2] == t[2] && s[3] == t[3] && s[4] == t[4]);
        }
    }
}

/// The text is the label, with the name `stem`, of the bundle whose extension is at
/// `i`: the name, without the extension unless there is nothing before that, and in
/// brackets the path up to and with the bundle.
pub open spec fn is_label(text: Seq<char>, stem: Seq<char>, path: Seq<char>, i: int) -> bool {
    &&& text == stem + seq![' ', '('] + path.take(i + 4) + seq![')']
    &&& stem.len() > 0
    &&& !stem.contains('/')
    &&& i > 0 && path[i - 1] != '/' ==> {
        let before = i - stem.len();
        &&& 0 <= before
        &&& stem == path.subrange(before, i)
        &&& before > 0 ==> path[before - 1] == '/'
    }
    &&& i == 0 || path[i - 1] == '/' ==> stem == path.subrange(i, i + 4)
}

/// A path has a label just if a bundle is on it. The label is that of the outermost.
pub proof fn law_the_label_is_that_of_the_outermost_bundle(r: Option<String>, path: Seq<char>)
    requires
        tcc::labels(r, path),
    ensures
        r is None <==> forall|i: int| !ends_bundle(path, i),
        forall|i: int|
            #![trigger ends_bundle(path, i)]
            ends_bundle(path, i) && (forall|j: int| 0 <= j < i ==> !ends_bundle(path, j)) ==> r
                is Some && exists|stem: Seq<char>| #[trigger] is_label(r->0@, stem, path, i),
{
    assert forall|i: int| ends_bundle(path, i) == tcc::bundle_ends(path, i) by {
        lemma_ends_bundle(path, i);
    }
    lemma_bundle_from(path, 0);
    if tcc::bundle_from(path, 0) is Some {
        let f = tcc::bundle_from(path, 0)->0;
        assert(ends_bundle(path, f) == tcc::bundle_ends(path, f));
    }
    assert forall|i: int|
        #![trigger ends_bundle(path, i)]
        ends_bundle(path, i) && (forall|j: int| 0 <= j < i ==> !ends_bundle(path, j)) implies r
        is Some && exists|stem: Seq<char>| #[trigger] is_label(r->0@, stem, path, i) by {
        assert(tcc::bundle_ends(path, i));
        match tcc::bundle_from(path, 0) {
            None => {
                assert(!tcc::bundle_ends(path, i));
            },
            Some(f) => {
                if f < i {
                    assert(!ends_bundle(path, f));
                }
                assert(f == i);
            },
        }
        let app = path.take(i + 4);
        let start = tcc::component_start(path, i + 4);
        reveal_with_fuel(tcc::component_start, 5);
        assert(start == tcc::component_start(path, i));
        lemma_start(path, i);
        let stem = if start == i {
            app.subrange(i, i + 4)
        } else {
            app.subrange(start, i)
        };
        assert(app.subrange(i, i + 4) =~= path.subrange(i, i + 4));
        assert(app.subrange(start, i) =~= path.subrange(start, i));
        assert forall|k: int| 0 <= k < stem.len() implies stem[k] != '/' by {
            if start == i {
                assert(stem[k] == path[i + k]);
            } else {
                assert(stem[k] == path[start + k]);
            }
        }
        assert(is_label(r->0@, stem, path, i));
    }
}

proof fn lemma_bundle_from(path: Seq<char>, i: int)
    requires
        0 <= i,
    ensures
        match tcc::bundle_from(path, i) {
            None => forall|k: int| i <= k ==> !tcc::bundle_ends(path, k),
            Some(f) => i <= f && tcc::bundle_ends(path, f) && forall|k: int|
                i <= k < f ==> !tcc::bundle_ends(path, k),
        },
    decreases path.len() - i,
{
    if i < path.len() && !tcc::bundle_ends(path, i) {
        lemma_bundle_from(path, i + 1);
    }
}

proof fn lemma_start(path: Seq<char>, n: int)
    requires
        0 <= n <= path.len(),
    ensures
        0 <= tcc::component_start(path, n) <= n,
        forall|k: int| tcc::component_start(path, n) <= k < n ==> path[k] != '/',
        tcc::component_start(path, n) > 0 ==> path[tcc::component_start(path, n) - 1] == '/',
    decreases n,
{
    if n > 0 && path[n - 1] != '/' {
        lemma_start(path, n - 1);
    }
}

} // verus!
