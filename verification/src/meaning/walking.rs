//! What a walk makes of the entries of a directory.

use vstd::prelude::*;
use crate::model;
use crate::model::{NodeId, State, NO_NODE};
use crate::paths;
use crate::plan::Plan;
use crate::scan;
use crate::scan::Stats;
use crate::sys::attrlist::Entry;
use crate::walk;
use crate::walk::Book;
use super::sizes;

verus! {

/// The entry is more than the directory itself, its parent, or nothing at all.
pub open spec fn is_kept(e: Entry) -> bool {
    e.name@.len() > 0 && !(e.name@.len() == 1 && e.name@[0] == 0x2e) && !(e.name@.len() == 2
        && e.name@[0] == 0x2e && e.name@[1] == 0x2e)
}

/// An entry that could be read, and is a directory.
pub open spec fn is_directory(e: Entry) -> bool {
    e.error == 0 && e.objtype == 2
}

/// An entry that could be read, and is a regular file.
pub open spec fn is_file(e: Entry) -> bool {
    e.error == 0 && e.objtype == 1
}

/// The entry could be met again elsewhere.
pub open spec fn may_return(e: Entry) -> bool {
    is_directory(e) || (is_file(e) && e.linkcount > 1)
}

/// The path of a name in a directory, with one slash between the two.
pub open spec fn path_in(dir: Seq<u8>, name: Seq<u8>) -> Seq<u8> {
    if dir.len() > 0 && dir[dir.len() - 1] == 0x2f {
        dir + name
    } else {
        dir + seq![0x2fu8] + name
    }
}

/// The path is one of the mount points that the plan keeps out.
pub open spec fn is_mounted(plan: Plan, path: Seq<u8>) -> bool {
    !forall|i: int|
        0 <= i < plan.group_mounts@.len() ==> !paths::same(
            (#[trigger] plan.group_mounts@[i])@,
            path,
        )
}

/// Apart from the empty name, the dot and the two dots, which change nothing,
/// every entry becomes the node behind those that are there, under its own name
/// and in its directory, and changes no node before it.
pub proof fn law_every_entry_becomes_a_node(
    b: Book,
    e: Entry,
    dir: NodeId,
    path: Seq<u8>,
    plan: Plan,
)
    ensures
        ({
            let a = walk::with_entry(b, e, dir, path, plan);
            let n = b.nodes.len() as int;
            &&& !is_kept(e) ==> a == b
            &&& is_kept(e) ==> {
                &&& a.nodes.len() == n + 1
                &&& forall|i: int| 0 <= i < n ==> #[trigger] a.nodes[i] == b.nodes[i]
                &&& a.names == b.names + e.name@
                &&& a.nodes[n].parent == dir
                &&& a.nodes[n].child_count == 0
                &&& a.nodes[n].first_child == NO_NODE
                &&& a.nodes[n].unknown_below == 0
                &&& b.names.len() < 0x1_0000_0000 ==> a.nodes[n].name_off == b.names.len()
                &&& e.name@.len() < 0x1_0000 ==> a.nodes[n].name_len == e.name@.len()
                &&& b.names.len() < 0x1_0000_0000 && e.name@.len() < 0x1_0000 ==> model::name_at(
                    a.nodes,
                    a.names,
                    n,
                ) == e.name@
            }
        }),
{
    let a = walk::with_entry(b, e, dir, path, plan);
    let n = b.nodes.len() as int;
    lemma_kept(e);
    if is_kept(e) && b.names.len() < 0x1_0000_0000 && e.name@.len() < 0x1_0000 {
        assert((b.names + e.name@).subrange(
            b.names.len() as int,
            (b.names.len() + e.name@.len()) as int,
        ) =~= e.name@);
        assert(model::name_at(a.nodes, a.names, n) =~= e.name@);
    }
}

proof fn lemma_kept(e: Entry)
    ensures
        is_kept(e) <==> !walk::is_dots(e.name@),
{
    if e.name@.len() == 1 && e.name@[0] == 0x2e {
        assert(e.name@ =~= seq![paths::DOT]);
    }
    if e.name@.len() == 2 && e.name@[0] == 0x2e && e.name@[1] == 0x2e {
        assert(e.name@ =~= seq![paths::DOT, paths::DOT]);
    }
}

proof fn lemma_path_in(dir: Seq<u8>, name: Seq<u8>)
    ensures
        path_in(dir, name) == paths::joined(dir, name),
{
    assert(dir + seq![0x2fu8] =~= dir.push(paths::SLASH));
}

/// A directory that could be read, was not met before and is no mount point of the
/// volume group is put down to be read, with its path, and counts as scanned,
/// whatever it is called and whatever its flags. Nothing else is put down to be
/// read, and any other directory is skipped.
pub proof fn law_every_new_directory_is_read(
    b: Book,
    e: Entry,
    dir: NodeId,
    path: Seq<u8>,
    plan: Plan,
)
    requires
        is_kept(e),
    ensures
        ({
            let a = walk::with_entry(b, e, dir, path, plan);
            let n = b.nodes.len() as int;
            let new = e.error == 0 && e.objtype == 2 && !b.seen.contains((e.realfsid, e.fileid))
                && !is_mounted(plan, path_in(path, e.name@));
            &&& new ==> a.stack == b.stack.push((n as NodeId, path_in(path, e.name@)))
                && a.nodes[n].state is Scanned
            &&& !new ==> a.stack == b.stack
            &&& e.error == 0 && e.objtype == 2 && !new ==> a.nodes[n].state == State::Skipped
            &&& e.error == 0 && e.objtype != 2 ==> a.nodes[n].state is Scanned
        }),
{
    lemma_kept(e);
    lemma_path_in(path, e.name@);
}

/// What an entry is, and what it says of itself, stands in its node.
pub proof fn law_a_node_tells_of_its_entry(
    b: Book,
    e: Entry,
    dir: NodeId,
    path: Seq<u8>,
    plan: Plan,
)
    requires
        is_kept(e),
        e.error == 0,
    ensures
        ({
            let n = walk::with_entry(b, e, dir, path, plan).nodes[b.nodes.len() as int];
            &&& n.kind is Dir <==> e.objtype == 2
            &&& n.kind is File <==> e.objtype == 1
            &&& n.kind is Symlink <==> e.objtype == 5
            &&& n.detail == 0
            &&& n.flags == e.flags
            &&& n.ext_flags == e.ext_flags & 0xff
            &&& n.mtime == e.mtime
        }),
{
    lemma_kept(e);
    let x = e.ext_flags;
    assert((x & 0xff) as u8 == x & 0xff) by (bit_vector);
}

/// A file has the sizes that its entry gives, unless it is a further link to a file
/// that was met before: that counts nothing, and is marked. Whatever is no file has
/// no bytes.
pub proof fn law_a_file_counts_where_it_is_met_first(
    b: Book,
    e: Entry,
    dir: NodeId,
    path: Seq<u8>,
    plan: Plan,
)
    requires
        is_kept(e),
    ensures
        ({
            let a = walk::with_entry(b, e, dir, path, plan);
            let n = a.nodes[b.nodes.len() as int];
            let again = is_file(e) && e.linkcount > 1 && b.seen.contains((e.realfsid, e.fileid));
            &&& n.hardlink_alias <==> again
            &&& is_file(e) && !again ==> n.size == scan::split(e)
            &&& !is_file(e) || again ==> n.size.logical == 0 && n.size.physical == 0
                && n.size.exclusive == 0 && n.size.shared_clones == 0 && n.size.shared_snapshot == 0
                && n.size.sparse_saving == 0
            &&& is_file(e) && !again ==> (a.physical - b.physical - e.alloc_size)
                % 0x1_0000_0000_0000_0000 == 0
            &&& !is_file(e) || again ==> a.physical == b.physical
        }),
{
    lemma_kept(e);
}

/// An entry that could not be read is kept with the number of its error, and leaves
/// no trace but that and the count of errors.
pub proof fn law_an_unreadable_entry_is_kept(
    b: Book,
    e: Entry,
    dir: NodeId,
    path: Seq<u8>,
    plan: Plan,
)
    requires
        is_kept(e),
        e.error != 0,
        b.stats.errors < u64::MAX,
    ensures
        ({
            let a = walk::with_entry(b, e, dir, path, plan);
            let n = a.nodes[b.nodes.len() as int];
            &&& n.kind is Other
            &&& n.detail == e.error as i32
            &&& n.state is DeniedTcc <==> e.error == 1
            &&& n.state is DeniedPerm <==> e.error == 13
            &&& n.state is Error <==> e.error != 1 && e.error != 13
            &&& n.flags == 0 && n.ext_flags == 0 && n.mtime == 0
            &&& a.seen == b.seen && a.families == b.families && a.clone_of == b.clone_of
            &&& a.stack == b.stack && a.physical == b.physical
            &&& a.stats.errors == b.stats.errors + 1
            &&& a.stats == Stats { errors: a.stats.errors, ..b.stats }
        }),
{
    lemma_kept(e);
    let x = e.error;
    assert((x as i32 == 1) == (x == 1) && (x as i32 == 13) == (x == 13)) by (bit_vector);
}

/// Just the directories and the files with several links are remembered, each by
/// its volume and number.
pub proof fn law_what_may_return_is_remembered(
    b: Book,
    e: Entry,
    dir: NodeId,
    path: Seq<u8>,
    plan: Plan,
    id: (i64, u64),
)
    requires
        is_kept(e),
    ensures
        walk::with_entry(b, e, dir, path, plan).seen.contains(id) <==> b.seen.contains(id) || (
        may_return(e) && id.0 == e.realfsid && id.1 == e.fileid),
{
    lemma_kept(e);
}

/// A file that shares blocks with clones joins the family that it names, unless it
/// is a further link, with its references and what it shares; the zero stands for no
/// family. No other entry touches a family.
pub proof fn law_a_clone_joins_its_family(
    b: Book,
    e: Entry,
    dir: NodeId,
    path: Seq<u8>,
    plan: Plan,
)
    requires
        is_kept(e),
    ensures
        ({
            let a = walk::with_entry(b, e, dir, path, plan);
            let id = b.nodes.len() as NodeId;
            let again = e.linkcount > 1 && b.seen.contains((e.realfsid, e.fileid));
            let joins = is_file(e) && !again && sizes::is_clone(e);
            let shared = a.nodes[b.nodes.len() as int].size.shared_clones;
            &&& joins && e.cloneid != 0 ==> a.clone_of == b.clone_of.insert(id, e.cloneid)
            &&& !(joins && e.cloneid != 0) ==> a.clone_of == b.clone_of
            &&& joins ==> a.families == scan::with_family_member(
                b.families,
                e.cloneid,
                e.clone_refcnt,
                shared,
            )
            &&& !joins ==> a.families == b.families
        }),
{
    lemma_kept(e);
}

/// Each count goes up by one for each entry that it counts, and for no other.
pub proof fn law_what_the_counts_count(b: Book, e: Entry, dir: NodeId, path: Seq<u8>, plan: Plan)
    requires
        is_kept(e),
        b.stats.at_most(u64::MAX - 1),
    ensures
        ({
            let a = walk::with_entry(b, e, dir, path, plan).stats;
            let s = b.stats;
            let again = e.linkcount > 1 && b.seen.contains((e.realfsid, e.fileid));
            &&& a.files - s.files == counts(is_file(e))
            &&& a.symlinks - s.symlinks == counts(e.error == 0 && e.objtype == 5)
            &&& a.hardlink_aliases - s.hardlink_aliases == counts(is_file(e) && again)
            &&& a.dataless - s.dataless == counts(is_file(e) && e.flags & 0x4000_0000 != 0)
            &&& a.compressed - s.compressed == counts(is_file(e) && e.flags & 0x20 != 0)
            &&& a.sparse - s.sparse == counts(is_file(e) && e.ext_flags & 0x10 != 0)
            &&& a.clone_members - s.clone_members == counts(
                is_file(e) && !again && sizes::is_clone(e),
            )
            &&& a.errors - s.errors == counts(e.error != 0)
            &&& a.dirs == s.dirs
            &&& a.denied_tcc == s.denied_tcc
            &&& a.denied_perm == s.denied_perm
            &&& a.skipped_mounts == s.skipped_mounts
            &&& a.elapsed_nanos == s.elapsed_nanos
        }),
{
    lemma_kept(e);
}

/// One for what is counted, and nothing for what is not.
pub open spec fn counts(c: bool) -> int {
    if c {
        1
    } else {
        0
    }
}

} // verus!
