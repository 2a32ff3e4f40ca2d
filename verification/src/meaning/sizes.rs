//! The sizes of a file, and the families of its clones.

use vstd::prelude::*;
use crate::model::State;
use crate::scan;
use crate::scan::Family;
use crate::sys::attrlist::Entry;

verus! {

/// The file shares blocks with clones: one of two bits of its extended flags is
/// set, or more than one file refers to its blocks.
pub open spec fn is_clone(e: Entry) -> bool {
    e.ext_flags & (0x1u64 | 0x40u64) != 0 || e.clone_refcnt > 1
}

/// The apparent size of a file is the length of its data, whatever its flags say,
/// and what it takes is what is allocated to it. An evicted file so keeps its
/// apparent size and takes nothing.
pub proof fn law_apparent_and_allocated_size(e: Entry)
    ensures
        scan::split(e).logical == e.data_length,
        scan::split(e).physical == e.alloc_size,
{
}

/// A file owns what is private to it, but no more than what is allocated; the
/// remainder goes to its clones if it has any, and else to snapshots.
pub proof fn law_who_holds_the_blocks(e: Entry)
    ensures
        ({
            let s = scan::split(e);
            &&& s.exclusive <= e.private_size
            &&& s.exclusive <= e.alloc_size
            &&& s.exclusive == e.private_size || s.exclusive == e.alloc_size
            &&& is_clone(e) ==> s.shared_clones == e.alloc_size - s.exclusive && s.shared_snapshot
                == 0
            &&& !is_clone(e) ==> s.shared_snapshot == e.alloc_size - s.exclusive && s.shared_clones
                == 0
        }),
{
}

/// The holes of a sparse file are what its data is longer than what is allocated.
/// Other files have none.
pub proof fn law_holes(e: Entry)
    ensures
        ({
            let s = scan::split(e);
            &&& e.ext_flags & 0x10u64 == 0 ==> s.sparse_saving == 0
            &&& e.ext_flags & 0x10u64 != 0 && e.data_length >= e.alloc_size ==> s.sparse_saving
                + e.alloc_size == e.data_length
            &&& e.ext_flags & 0x10u64 != 0 && e.data_length < e.alloc_size ==> s.sparse_saving == 0
        }),
{
}

/// The sizes go by the data, the allocation, the private part, the extended flags
/// and the count of clones alone.
pub proof fn law_sizes_go_by_five_fields(e: Entry, f: Entry)
    requires
        e.data_length == f.data_length,
        e.alloc_size == f.alloc_size,
        e.private_size == f.private_size,
        e.ext_flags == f.ext_flags,
        e.clone_refcnt == f.clone_refcnt,
    ensures
        scan::split(e) == scan::split(f),
{
}

/// A further member raises the count of a family by one and no figure falls; each
/// figure is one that a member gave, but for the one reference that every family
/// has.
pub proof fn law_a_member_joins_a_family(f: Family, refcnt: u32, shared: u64)
    requires
        f.seen < u32::MAX,
    ensures
        ({
            let g = scan::with_member(Some(f), refcnt, shared);
            let h = scan::with_member(None, refcnt, shared);
            &&& g.seen == f.seen + 1
            &&& g.refcnt >= f.refcnt && g.refcnt >= refcnt && (g.refcnt == f.refcnt || g.refcnt
                == refcnt)
            &&& g.shared_bytes >= f.shared_bytes && g.shared_bytes >= shared && (g.shared_bytes
                == f.shared_bytes || g.shared_bytes == shared)
            &&& h.seen == 1 && h.shared_bytes == shared
            &&& refcnt >= 1 ==> h.refcnt == refcnt
            &&& refcnt == 0 ==> h.refcnt == 1
        }),
{
}

/// The order in which two members are met does not matter.
pub proof fn law_members_join_in_any_order(f: Option<Family>, r1: u32, s1: u64, r2: u32, s2: u64)
    requires
        f matches Some(g) ==> g.seen < u32::MAX - 1,
        f matches Some(g) ==> g.refcnt >= 1,
    ensures
        scan::with_member(Some(scan::with_member(f, r1, s1)), r2, s2) == scan::with_member(
            Some(scan::with_member(f, r2, s2)),
            r1,
            s1,
        ),
{
}

/// A member of one family leaves all others as they were.
pub proof fn law_families_do_not_mix(
    m: Map<u64, Family>,
    cloneid: u64,
    refcnt: u32,
    shared: u64,
    c: u64,
)
    ensures
        ({
            let n = scan::with_family_member(m, cloneid, refcnt, shared);
            &&& n.contains_key(c) <==> m.contains_key(c) || c == cloneid
            &&& c != cloneid && m.contains_key(c) ==> n[c] == m[c]
            &&& m.contains_key(cloneid) ==> n[cloneid] == scan::with_member(
                Some(m[cloneid]),
                refcnt,
                shared,
            )
            &&& !m.contains_key(cloneid) ==> n[cloneid] == scan::with_member(None, refcnt, shared)
        }),
{
}

/// Only `EPERM`, which is 1, is laid to the privacy controls, and only `EACCES`,
/// which is 13, to ownership or mode. Everything else is an error.
pub proof fn law_who_refuses(errno: int)
    ensures
        scan::refusal_state(errno) is DeniedTcc <==> errno == 1,
        scan::refusal_state(errno) is DeniedPerm <==> errno == 13,
        scan::refusal_state(errno) is Error <==> errno != 1 && errno != 13,
        !(scan::refusal_state(errno) is Scanned),
        scan::refusal_state(errno) != State::Skipped,
{
}

/// Two objects have the same number only if they are the same.
pub proof fn law_identities_differ(f: i64, i: u64, g: i64, j: u64)
    ensures
        scan::identity(f, i) == scan::identity(g, j) <==> f == g && i == j,
{
    if scan::identity(f, i) == scan::identity(g, j) {
        scan::lemma_identity(f, i, g, j);
    }
}

} // verus!
