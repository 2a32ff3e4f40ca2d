//! The walk over a directory tree.
//!
//! The decisions are here: what an entry adds to the tree, what to descend into,
//! what counts only once, and when the walk is over. Reading directories and
//! running threads is left to the program around the library, which hands in
//! what it has read.

use std::collections::{HashMap, HashSet};

use vstd::prelude::*;
use crate::model;
use crate::model::{NodeId, Sizes, State, Tree};
use crate::sys::attrlist::Entry;
use crate::sys::errno;
use crate::sys::ffi::EF_IS_SPARSE;
use crate::sys::iopolicy::Policies;
use crate::text;

verus! {

broadcast use vstd::std_specs::hash::group_hash_axioms;

/// The size of the buffer for one call of `getattrlistbulk`.
pub const BULK_BUF: usize = 131072;

/// More threads than this do not make a scan faster.
pub const MAX_THREADS: usize = 4;

#[derive(Clone, Copy, Debug, PartialEq, Eq, Structural)]
pub struct Options {
    pub threads: usize,
    /// The size of the buffer handed to `getattrlistbulk`.
    pub buf_size: usize,
}

impl Options {
    /// What to use where nothing else is asked for: as many threads as there are
    /// cores, where that is known, but no more than [`MAX_THREADS`].
    pub fn for_cores(cores: Option<usize>) -> (r: Options)
        ensures
            r.threads == (match cores {
                Some(n) => if n <= MAX_THREADS {
                    n
                } else {
                    MAX_THREADS
                },
                None => MAX_THREADS,
            }),
            r.buf_size == BULK_BUF,
    {
        let threads: usize = match cores {
            Some(n) => {
                if n <= MAX_THREADS {
                    n
                } else {
                    MAX_THREADS
                }
            },
            None => MAX_THREADS,
        };
        Options { threads, buf_size: BULK_BUF }
    }

    /// The same with so many threads, unless that is zero.
    pub fn with_threads(self, threads: usize) -> (r: Options)
        ensures
            r.buf_size == self.buf_size,
            r.threads == (if threads == 0 {
                self.threads
            } else {
                threads
            }),
    {
        Options {
            threads: if threads == 0 {
                self.threads
            } else {
                threads
            },
            buf_size: self.buf_size,
        }
    }

    /// How many threads to start: those asked for, but at least one.
    pub fn workers(&self) -> (r: usize)
        ensures
            r == (if self.threads == 0 {
                1
            } else {
                self.threads
            }),
    {
        if self.threads == 0 {
            1
        } else {
            self.threads
        }
    }
}

/// How far a scan has come.
#[derive(Clone, Copy, Debug, PartialEq, Eq, Structural)]
pub struct Progress {
    pub dirs: u64,
    pub files: u64,
    pub physical: u64,
}

impl Default for Progress {
    fn default() -> (r: Self)
        ensures
            r == (Progress { dirs: 0, files: 0, physical: 0 }),
    {
        Progress { dirs: 0, files: 0, physical: 0 }
    }
}

#[derive(Clone, Copy, Debug, PartialEq, Eq, Structural)]
pub struct Stats {
    /// Directories that were read.
    pub dirs: u64,
    pub files: u64,
    pub symlinks: u64,
    pub hardlink_aliases: u64,
    pub dataless: u64,
    pub compressed: u64,
    pub sparse: u64,
    pub clone_members: u64,
    pub denied_tcc: u64,
    pub denied_perm: u64,
    pub errors: u64,
    pub skipped_mounts: u64,
    pub elapsed_nanos: u128,
}

impl Stats {
    pub open spec fn none() -> Stats {
        Stats {
            dirs: 0,
            files: 0,
            symlinks: 0,
            hardlink_aliases: 0,
            dataless: 0,
            compressed: 0,
            sparse: 0,
            clone_members: 0,
            denied_tcc: 0,
            denied_perm: 0,
            errors: 0,
            skipped_mounts: 0,
            elapsed_nanos: 0,
        }
    }

    /// No count that a walk raises is above `n`.
    pub open spec fn at_most(&self, n: int) -> bool {
        &&& self.dirs <= n
        &&& self.files <= n
        &&& self.symlinks <= n
        &&& self.hardlink_aliases <= n
        &&& self.dataless <= n
        &&& self.compressed <= n
        &&& self.sparse <= n
        &&& self.clone_members <= n
        &&& self.denied_tcc <= n
        &&& self.denied_perm <= n
        &&& self.errors <= n
    }
}

impl Default for Stats {
    fn default() -> (r: Self)
        ensures
            r == Stats::none(),
    {
        Stats {
            dirs: 0,
            files: 0,
            symlinks: 0,
            hardlink_aliases: 0,
            dataless: 0,
            compressed: 0,
            sparse: 0,
            clone_members: 0,
            denied_tcc: 0,
            denied_perm: 0,
            errors: 0,
            skipped_mounts: 0,
            elapsed_nanos: 0,
        }
    }
}

/// A family of clones, as far as the scan has met it.
#[derive(Clone, Copy, Debug, PartialEq, Eq, Structural)]
pub struct Family {
    /// How many members there are on the volume.
    pub refcnt: u32,
    /// How many of them the scan has met. If it has met all, deleting all of
    /// them frees `shared_bytes`.
    pub seen: u32,
    pub shared_bytes: u64,
}

pub open spec fn max_of(a: int, b: int) -> int {
    if a >= b {
        a
    } else {
        b
    }
}

/// The family once a further member is met, which says that there are `refcnt`
/// members and that it shares so many bytes. Members can drift apart, so the
/// largest figures stand.
pub open spec fn with_member(f: Option<Family>, refcnt: u32, shared: u64) -> Family {
    match f {
        None => Family {
            refcnt: max_of(refcnt as int, 1) as u32,
            seen: 1,
            shared_bytes: shared,
        },
        Some(f) => Family {
            refcnt: max_of(f.refcnt as int, refcnt as int) as u32,
            seen: (f.seen + 1) as u32,
            shared_bytes: max_of(f.shared_bytes as int, shared as int) as u64,
        },
    }
}

/// The objects that were met, each as a volume and a file number on it.
pub struct Dedupe {
    pub keys: HashSet<u128>,
}

/// One number for a volume and a file number on it.
pub open spec fn identity(fsid: i64, fileid: u64) -> u128 {
    ((fsid as u64 as u128) << 64) | (fileid as u128)
}

pub proof fn lemma_identity(f: i64, i: u64, g: i64, j: u64)
    requires
        identity(f, i) == identity(g, j),
    ensures
        f == g && i == j,
{
    let a = f as u64;
    let b = g as u64;
    assert(((a as u128) << 64) | (i as u128) == ((b as u128) << 64) | (j as u128) ==> a == b && i
        == j) by (bit_vector);
    assert(f as u64 == g as u64 ==> f == g) by (bit_vector);
}

impl View for Dedupe {
    type V = Set<(i64, u64)>;

    open spec fn view(&self) -> Set<(i64, u64)> {
        Set::new(|p: (i64, u64)| self.keys@.contains(identity(p.0, p.1)))
    }
}

impl Dedupe {
    pub fn new() -> (r: Self)
        ensures
            r@ == Set::<(i64, u64)>::empty(),
    {
        let r = Dedupe { keys: HashSet::new() };
        assert(r@ =~= Set::<(i64, u64)>::empty());
        r
    }

    /// Notes an object, and says whether it had not been met before.
    pub fn claim(&mut self, fsid: i64, fileid: u64) -> (fresh: bool)
        ensures
            fresh == !old(self)@.contains((fsid, fileid)),
            final(self)@ == old(self)@.insert((fsid, fileid)),
    {
        let key: u128 = ((fsid as u64 as u128) << 64) | (fileid as u128);
        let fresh = self.keys.insert(key);
        proof {
            assert forall|p: (i64, u64)| #[trigger]
                self@.contains(p) == old(self)@.insert((fsid, fileid)).contains(p) by {
                if identity(p.0, p.1) == key {
                    lemma_identity(p.0, p.1, fsid, fileid);
                }
            }
            assert(self@ =~= old(self)@.insert((fsid, fileid)));
        }
        fresh
    }
}

/// The families that were met, by their clone id.
pub struct Families {
    pub by_id: HashMap<u64, Family>,
}

impl View for Families {
    type V = Map<u64, Family>;

    open spec fn view(&self) -> Map<u64, Family> {
        self.by_id@
    }
}

/// The families once a further member is met.
pub open spec fn with_family_member(
    m: Map<u64, Family>,
    cloneid: u64,
    refcnt: u32,
    shared: u64,
) -> Map<u64, Family> {
    m.insert(
        cloneid,
        with_member(
            if m.contains_key(cloneid) {
                Some(m[cloneid])
            } else {
                None
            },
            refcnt,
            shared,
        ),
    )
}

impl Families {
    pub fn new() -> (r: Self)
        ensures
            r@ == Map::<u64, Family>::empty(),
    {
        Families { by_id: HashMap::new() }
    }

    /// Notes a member of a family.
    pub fn record(&mut self, cloneid: u64, refcnt: u32, shared: u64)
        requires
            old(self)@.contains_key(cloneid) ==> old(self)@[cloneid].seen < u32::MAX,
        ensures
            final(self)@ == with_family_member(old(self)@, cloneid, refcnt, shared),
    {
        let f: Family = match self.by_id.get(&cloneid) {
            None => Family {
                refcnt: if refcnt >= 1 {
                    refcnt
                } else {
                    1
                },
                seen: 1,
                shared_bytes: shared,
            },
            Some(f) => Family {
                refcnt: if f.refcnt >= refcnt {
                    f.refcnt
                } else {
                    refcnt
                },
                seen: f.seen + 1,
                shared_bytes: if f.shared_bytes >= shared {
                    f.shared_bytes
                } else {
                    shared
                },
            },
        };
        self.by_id.insert(cloneid, f);
    }

    /// The families themselves.
    pub fn drain(self) -> (r: HashMap<u64, Family>)
        ensures
            r@ == self@,
    {
        self.by_id
    }
}

/// The sizes of a file. What is allocated to it is its own, or shared with its
/// clones, or else pinned by a snapshot.
pub open spec fn split(e: Entry) -> Sizes {
    let exclusive = if e.private_size <= e.alloc_size {
        e.private_size
    } else {
        e.alloc_size
    };
    let shared = (e.alloc_size - exclusive) as u64;
    Sizes {
        logical: e.data_length,
        physical: e.alloc_size,
        exclusive,
        shared_clones: if e.is_shared() {
            shared
        } else {
            0
        },
        shared_snapshot: if e.is_shared() {
            0
        } else {
            shared
        },
        sparse_saving: if e.ext_flags & EF_IS_SPARSE != 0 && e.data_length > e.alloc_size {
            (e.data_length - e.alloc_size) as u64
        } else {
            0
        },
    }
}

pub fn sizes_of(e: &Entry) -> (r: Sizes)
    ensures
        r == split(*e),
        r.logical == e.data_length,
        r.physical == e.alloc_size,
        r.exclusive <= e.private_size && r.exclusive <= e.alloc_size,
        r.exclusive == e.private_size || r.exclusive == e.alloc_size,
        r.exclusive + r.shared_clones + r.shared_snapshot == e.alloc_size,
{
    let physical: u64 = e.alloc_size;
    let exclusive: u64 = if e.private_size <= physical {
        e.private_size
    } else {
        physical
    };
    let shared: u64 = physical - exclusive;
    let by_clones = e.shares_with_clones();
    Sizes {
        logical: e.data_length,
        physical,
        exclusive,
        shared_clones: if by_clones {
            shared
        } else {
            0
        },
        shared_snapshot: if by_clones {
            0
        } else {
            shared
        },
        sparse_saving: if e.is_sparse() {
            e.data_length.saturating_sub(physical)
        } else {
            0
        },
    }
}

/// What an error number says of a node.
pub open spec fn refusal_state(errno: int) -> State {
    if errno == errno::not_permitted() {
        State::DeniedTcc
    } else if errno == errno::no_access() {
        State::DeniedPerm
    } else {
        State::Error
    }
}

pub fn err_state(errno: i32) -> (r: State)
    ensures
        r == refusal_state(errno as int),
{
    if errno == errno::eperm() {
        State::DeniedTcc
    } else if errno == errno::eacces() {
        State::DeniedPerm
    } else {
        State::Error
    }
}

/// A finished scan.
pub struct ScanResult {
    pub tree: Tree,
    pub stats: Stats,
    pub root_path: Vec<u8>,
    /// The mounts that were not entered, and why.
    pub skipped: Vec<(Vec<u8>, &'static str)>,
    /// The clone families, by their clone id.
    pub families: HashMap<u64, Family>,
    /// The family of each node that is a member of one.
    pub clone_of: HashMap<NodeId, u64>,
    pub policies: Policies,
    /// What `statfs` says of the volume that the root is on.
    pub volume_used: u64,
    pub volume_total: u64,
    /// The root is a mount point, so that its total can be compared with what
    /// the volume holds.
    pub root_is_volume_root: bool,
    pub cancelled: bool,
}

impl ScanResult {
    /// The tree is a tree, with one root, and the blocks of children in it are
    /// as they should be.
    pub open spec fn wf(&self) -> bool {
        &&& self.tree.nodes@.len() > 0
        &&& self.tree.named()
        &&& model::rooted(self.tree.nodes@)
        &&& model::nested(self.tree.nodes@)
    }

    /// A note on the hard links that count elsewhere.
    pub fn dedupe_note(&self) -> (s: String)
        ensures
            s@ == text::decimal(self.stats.hardlink_aliases as int) + " hardlink aliases folded"@,
    {
        let mut s = String::new();
        text::push_decimal(&mut s, self.stats.hardlink_aliases as u128);
        s.append(" hardlink aliases folded");
        assert(s@ =~= text::decimal(self.stats.hardlink_aliases as int)
            + " hardlink aliases folded"@);
        s
    }
}

} // verus!
