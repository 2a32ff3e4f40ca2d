//! The result of a scan: an arena of nodes, each with several sizes.
//!
//! "How big is this" has more than one true answer where files share blocks
//! with clones and with snapshots, so a node carries them side by side.

use vstd::prelude::*;
use crate::foreign;
use crate::order;
use crate::order::LargestFirst;
use crate::paths;

verus! {

pub type NodeId = u32;

pub const ROOT: NodeId = 0;

/// No node: the parent of the root, and the first child of a childless node.
pub const NO_NODE: NodeId = 0xffff_ffff;

/// The sizes of one node, or of all of its subtree.
#[derive(Clone, Copy, Debug, PartialEq, Eq, Structural)]
pub struct Sizes {
    /// The apparent size. It counts holes, and files that iCloud has evicted.
    pub logical: u64,
    /// The bytes allocated on disk. Every clone counts in full.
    pub physical: u64,
    /// The bytes that only this object holds, which deleting it frees at once.
    pub exclusive: u64,
    /// Of the remainder: shared with clones of the file.
    pub shared_clones: u64,
    /// Of the remainder: pinned by a snapshot or by the sealed system volume.
    pub shared_snapshot: u64,
    /// The holes of a sparse file.
    pub sparse_saving: u64,
}

/// Sums of sizes, and of nodes that are not fully accounted for, as integers
/// without bound.
pub struct Totals {
    pub logical: int,
    pub physical: int,
    pub exclusive: int,
    pub shared_clones: int,
    pub shared_snapshot: int,
    pub sparse_saving: int,
    pub unknown: int,
}

impl Totals {
    pub open spec fn zero() -> Totals {
        Totals {
            logical: 0,
            physical: 0,
            exclusive: 0,
            shared_clones: 0,
            shared_snapshot: 0,
            sparse_saving: 0,
            unknown: 0,
        }
    }

    pub open spec fn plus(self, o: Totals) -> Totals {
        Totals {
            logical: self.logical + o.logical,
            physical: self.physical + o.physical,
            exclusive: self.exclusive + o.exclusive,
            shared_clones: self.shared_clones + o.shared_clones,
            shared_snapshot: self.shared_snapshot + o.shared_snapshot,
            sparse_saving: self.sparse_saving + o.sparse_saving,
            unknown: self.unknown + o.unknown,
        }
    }

    /// No component is negative.
    pub open spec fn natural(self) -> bool {
        &&& self.logical >= 0
        &&& self.physical >= 0
        &&& self.exclusive >= 0
        &&& self.shared_clones >= 0
        &&& self.shared_snapshot >= 0
        &&& self.sparse_saving >= 0
        &&& self.unknown >= 0
    }

    /// A node has room for these sums.
    pub open spec fn fits(self) -> bool {
        &&& self.logical <= u64::MAX
        &&& self.physical <= u64::MAX
        &&& self.exclusive <= u64::MAX
        &&& self.shared_clones <= u64::MAX
        &&& self.shared_snapshot <= u64::MAX
        &&& self.sparse_saving <= u64::MAX
        &&& self.unknown <= u32::MAX
    }
}

impl View for Sizes {
    type V = Totals;

    open spec fn view(&self) -> Totals {
        Totals {
            logical: self.logical as int,
            physical: self.physical as int,
            exclusive: self.exclusive as int,
            shared_clones: self.shared_clones as int,
            shared_snapshot: self.shared_snapshot as int,
            sparse_saving: self.sparse_saving as int,
            unknown: 0,
        }
    }
}

impl Default for Sizes {
    fn default() -> (r: Self)
        ensures
            r == Sizes::nothing(),
    {
        Sizes {
            logical: 0,
            physical: 0,
            exclusive: 0,
            shared_clones: 0,
            shared_snapshot: 0,
            sparse_saving: 0,
        }
    }
}

impl Sizes {
    pub open spec fn nothing() -> Sizes {
        Sizes {
            logical: 0,
            physical: 0,
            exclusive: 0,
            shared_clones: 0,
            shared_snapshot: 0,
            sparse_saving: 0,
        }
    }

    /// What is allocated is owned alone, shared with clones, or pinned.
    pub open spec fn balanced(self) -> bool {
        self.physical == self.exclusive + self.shared_clones + self.shared_snapshot
    }

    /// Adds the sizes of `o` to these.
    pub fn add(&mut self, o: &Sizes)
        requires
            old(self)@.plus(o@).fits(),
        ensures
            final(self)@ == old(self)@.plus(o@),
    {
        self.logical = self.logical + o.logical;
        self.physical = self.physical + o.physical;
        self.exclusive = self.exclusive + o.exclusive;
        self.shared_clones = self.shared_clones + o.shared_clones;
        self.shared_snapshot = self.shared_snapshot + o.shared_snapshot;
        self.sparse_saving = self.sparse_saving + o.sparse_saving;
    }

    /// The bytes shared with anything else.
    pub fn shared(&self) -> (r: u64)
        requires
            self.shared_clones + self.shared_snapshot <= u64::MAX,
        ensures
            r == self.shared_clones + self.shared_snapshot,
    {
        self.shared_clones + self.shared_snapshot
    }
}

#[derive(Clone, Copy, Debug, PartialEq, Eq, Structural)]
pub enum Kind {
    Dir,
    File,
    Symlink,
    Other,
}

/// Whether the contents of a node are accounted for. What could not be read is
/// said to be so, rather than passed off as zero bytes.
#[derive(Clone, Copy, Debug, PartialEq, Eq, Structural)]
pub enum State {
    /// Fully scanned.
    Scanned,
    /// Refused by the privacy controls; granting Full Disk Access helps.
    DeniedTcc,
    /// Refused by ownership or mode; granting Full Disk Access does not help.
    DeniedPerm,
    /// Any other error.
    Error,
    /// Not entered on purpose.
    Skipped,
}

/// The number that stands for a kind.
pub open spec fn kind_number(k: Kind) -> u8 {
    match k {
        Kind::Dir => 0,
        Kind::File => 1,
        Kind::Symlink => 2,
        Kind::Other => 3,
    }
}

/// The number that stands for a state.
pub open spec fn state_number(s: State) -> u8 {
    match s {
        State::Scanned => 0,
        State::DeniedTcc => 1,
        State::DeniedPerm => 2,
        State::Error => 3,
        State::Skipped => 4,
    }
}

pub fn kind_code(k: Kind) -> (r: u8)
    ensures
        r == kind_number(k),
{
    match k {
        Kind::Dir => 0,
        Kind::File => 1,
        Kind::Symlink => 2,
        Kind::Other => 3,
    }
}

pub fn state_code(s: State) -> (r: u8)
    ensures
        r == state_number(s),
{
    match s {
        State::Scanned => 0,
        State::DeniedTcc => 1,
        State::DeniedPerm => 2,
        State::Error => 3,
        State::Skipped => 4,
    }
}

/// One file, directory or other object. A scan of a whole disk holds millions
/// of these.
#[derive(Clone, Copy, Debug)]
pub struct Node {
    /// Where the name starts in the tree's names, and how long it is.
    pub name_off: u32,
    pub name_len: u16,
    pub kind: Kind,
    pub state: State,
    /// The error number where the node could not be read, or the code of the
    /// reason for which it was skipped.
    pub detail: i32,
    pub parent: NodeId,
    pub first_child: NodeId,
    pub child_count: u32,
    /// How many nodes at or below this one are not [`State::Scanned`], once the tree
    /// is rolled up. If there are any, the sizes are a lower bound.
    pub unknown_below: u32,
    /// The `st_flags` of the object.
    pub flags: u32,
    /// The `EF_*` bits; all that are defined fit.
    pub ext_flags: u8,
    /// A further hard link to an object that was counted elsewhere. Its sizes
    /// are zero.
    pub hardlink_alias: bool,
    pub mtime: i64,
    /// The sizes of the node itself, or those of its subtree once the tree is
    /// rolled up.
    pub size: Sizes,
}

impl Node {
    /// What the node itself adds to the sums of its ancestors.
    pub open spec fn tally(&self) -> Totals {
        Totals {
            unknown: self.unknown_below + (if self.state is Scanned {
                0int
            } else {
                1
            }),
            ..self.size@
        }
    }

    /// The sums that the node shows.
    pub open spec fn shown(&self) -> Totals {
        Totals { unknown: self.unknown_below as int, ..self.size@ }
    }

    /// The two nodes differ in their sums at most.
    pub open spec fn same_but_sums(&self, o: Node) -> bool {
        *self == (Node { size: self.size, unknown_below: self.unknown_below, ..o })
    }

    pub fn kind(&self) -> (r: Kind)
        ensures
            r == self.kind,
    {
        self.kind
    }

    pub fn state(&self) -> (r: State)
        ensures
            r == self.state,
    {
        self.state
    }

    pub fn is_dir(&self) -> (r: bool)
        ensures
            r == (self.kind is Dir),
    {
        matches!(self.kind, Kind::Dir)
    }

    pub fn is_complete(&self) -> (r: bool)
        ensures
            r == (self.unknown_below == 0),
    {
        self.unknown_below == 0
    }

    pub fn set_state(&mut self, s: State)
        ensures
            *final(self) == (Node { state: s, ..*old(self) }),
    {
        self.state = s;
    }

    /// The ids of the children, which lie side by side in the arena.
    pub fn children(&self) -> (r: core::ops::Range<NodeId>)
        requires
            self.child_count > 0 ==> self.first_child + self.child_count <= u32::MAX,
        ensures
            self.child_count == 0 ==> r.start == 0 && r.end == 0,
            self.child_count > 0 ==> r.start == self.first_child && r.end == self.first_child
                + self.child_count,
    {
        if self.child_count == 0 {
            0..0
        } else {
            self.first_child..self.first_child + self.child_count
        }
    }
}

/// The nodes, and their names in one piece.
///
/// A node is appended after its parent, so that one pass from the back meets
/// every node before its parent.
pub struct Tree {
    pub nodes: Vec<Node>,
    pub names: Vec<u8>,
}

/// Node `i` hangs under no other node.
pub open spec fn is_top(nodes: Seq<Node>, i: int) -> bool {
    nodes[i].parent == NO_NODE || nodes[i].parent == i
}

/// Node `j` hangs directly under node `i`.
pub open spec fn is_child(nodes: Seq<Node>, i: int, j: int) -> bool {
    j > i && nodes[j].parent == i
}

/// In a chain of ids, the one behind the `k`-th is its parent.
spec fn climbs(nodes: Seq<Node>, chain: Seq<NodeId>, k: int) -> bool {
    !is_top(nodes, chain[k] as int) && nodes[chain[k] as int].parent == chain[k + 1]
}

/// Every parent comes before its children, and ids are wide enough.
pub open spec fn linked(nodes: Seq<Node>) -> bool {
    &&& nodes.len() <= u32::MAX
    &&& forall|i: int|
        0 <= i < nodes.len() ==> (#[trigger] nodes[i]).parent == NO_NODE || nodes[i].parent <= i
}

/// The first node is the only one that hangs under no other.
pub open spec fn rooted(nodes: Seq<Node>) -> bool {
    &&& linked(nodes)
    &&& forall|i: int| 0 < i < nodes.len() ==> (#[trigger] nodes[i]).parent < i
}

/// `j` is an id in the block of children that `n` names.
pub open spec fn in_block(n: Node, j: int) -> bool {
    n.child_count > 0 && n.first_child <= j < n.first_child + n.child_count
}

/// The block of children that a node names lies behind it in the arena and
/// holds just the nodes that name it as their parent.
pub open spec fn nested(nodes: Seq<Node>) -> bool {
    &&& forall|i: int|
        #![trigger nodes[i]]
        0 <= i < nodes.len() && nodes[i].child_count > 0 ==> i < nodes[i].first_child
            && nodes[i].first_child + nodes[i].child_count <= nodes.len()
    &&& forall|i: int, j: int|
        #![trigger nodes[i], nodes[j]]
        0 <= i < nodes.len() && 0 <= j < nodes.len() ==> (is_child(nodes, i, j) <==> in_block(
            nodes[i],
            j,
        ))
}

/// The ids of the block of children that `n` names, in their order in the arena.
pub open spec fn block(n: Node) -> Seq<NodeId> {
    Seq::new(n.child_count as nat, |k: int| (n.first_child + k) as NodeId)
}

/// The block of children that node `i` names lies within the arena.
pub open spec fn block_in(nodes: Seq<Node>, i: int) -> bool {
    nodes[i].child_count > 0 ==> nodes[i].first_child + nodes[i].child_count <= nodes.len()
}

/// Node `d` is node `a` or lies somewhere below it.
pub open spec fn at_or_below(nodes: Seq<Node>, a: int, d: int) -> bool
    decreases d,
{
    d == a || (0 <= d < nodes.len() && 0 <= nodes[d].parent < d && at_or_below(
        nodes,
        a,
        nodes[d].parent as int,
    ))
}

/// The sums over node `i` and everything below it.
pub open spec fn total(nodes: Seq<Node>, i: int) -> Totals
    decreases nodes.len() - i, 0int,
{
    if 0 <= i < nodes.len() {
        nodes[i].tally().plus(gather(nodes, i, i + 1))
    } else {
        Totals::zero()
    }
}

/// The sums over the children of node `i` from id `lo` on, and everything below
/// them.
pub open spec fn gather(nodes: Seq<Node>, i: int, lo: int) -> Totals
    decreases nodes.len() - lo, 1int,
{
    if 0 <= lo < nodes.len() {
        let rest = gather(nodes, i, lo + 1);
        if is_child(nodes, i, lo) {
            total(nodes, lo).plus(rest)
        } else {
            rest
        }
    } else {
        Totals::zero()
    }
}

/// Every name lies within the stored bytes.
pub open spec fn named_in(nodes: Seq<Node>, names: Seq<u8>) -> bool {
    forall|i: int|
        0 <= i < nodes.len() ==> (#[trigger] nodes[i]).name_off + nodes[i].name_len <= names.len()
}

/// The name of node `i`.
pub open spec fn name_at(nodes: Seq<Node>, names: Seq<u8>, i: int) -> Seq<u8> {
    names.subrange(nodes[i].name_off as int, nodes[i].name_off + nodes[i].name_len)
}

/// The path of node `i`: its name, inside the path of its parent.
pub open spec fn path_at(nodes: Seq<Node>, names: Seq<u8>, i: int) -> Seq<u8>
    decreases i,
{
    if 0 <= i < nodes.len() && !is_top(nodes, i) && nodes[i].parent < i {
        paths::joined(path_at(nodes, names, nodes[i].parent as int), name_at(nodes, names, i))
    } else {
        name_at(nodes, names, i)
    }
}

impl Tree {
    pub open spec fn named(&self) -> bool {
        named_in(self.nodes@, self.names@)
    }

    pub open spec fn wf(&self) -> bool {
        linked(self.nodes@) && self.named()
    }

    pub open spec fn name_of(&self, i: int) -> Seq<u8> {
        name_at(self.nodes@, self.names@, i)
    }

    pub open spec fn path_of(&self, i: int) -> Seq<u8> {
        path_at(self.nodes@, self.names@, i)
    }

    pub fn new() -> (r: Self)
        ensures
            r.nodes@.len() == 0,
            r.names@.len() == 0,
            r.wf(),
    {
        Tree { nodes: Vec::new(), names: Vec::new() }
    }

    /// An empty tree with room for `n` nodes and sixteen bytes of name for each.
    pub fn with_capacity(n: usize) -> (r: Self)
        requires
            n * 96 <= isize::MAX,
        ensures
            r.nodes@.len() == 0,
            r.names@.len() == 0,
            r.wf(),
    {
        Tree { nodes: Vec::with_capacity(n), names: Vec::with_capacity(n * 16) }
    }

    pub fn len(&self) -> (r: usize)
        ensures
            r == self.nodes@.len(),
    {
        self.nodes.len()
    }

    pub fn is_empty(&self) -> (r: bool)
        ensures
            r == (self.nodes@.len() == 0),
    {
        self.nodes.len() == 0
    }

    pub fn name(&self, id: NodeId) -> (r: &[u8])
        requires
            id < self.nodes@.len(),
            self.named(),
        ensures
            r@ == self.name_of(id as int),
    {
        let n = &self.nodes[id as usize];
        let s: usize = n.name_off as usize;
        assert(s + n.name_len <= self.names.len());
        vstd::slice::slice_subrange(self.names.as_slice(), s, s + n.name_len as usize)
    }

    /// The name as text. Bytes that are not UTF-8 are replaced.
    pub fn name_str(&self, id: NodeId) -> (r: String)
        requires
            id < self.nodes@.len(),
            self.named(),
        ensures
            r@ == foreign::utf8_lossy(self.name_of(id as int)),
            vstd::utf8::valid_utf8(self.name_of(id as int)) ==> r@ == vstd::utf8::decode_utf8(
                self.name_of(id as int),
            ),
    {
        foreign::from_utf8_lossy(self.name(id))
    }

    pub fn node(&self, id: NodeId) -> (r: &Node)
        requires
            id < self.nodes@.len(),
        ensures
            *r == self.nodes@[id as int],
    {
        &self.nodes[id as usize]
    }

    /// Appends a node without children and returns its id.
    ///
    /// A node has sixteen bits for the length of its name and thirty-two for
    /// its place; what does not fit is cut off.
    pub fn push(&mut self, name: &[u8], parent: NodeId, kind: Kind, state: State) -> (id: NodeId)
        requires
            old(self).nodes@.len() < u32::MAX,
        ensures
            id == old(self).nodes@.len(),
            final(self).names@ == old(self).names@ + name@,
            final(self).nodes@ == old(self).nodes@.push(
                Node {
                    name_off: (old(self).names@.len() % 0x1_0000_0000) as u32,
                    name_len: (name@.len() % 0x1_0000) as u16,
                    kind,
                    state,
                    detail: 0,
                    parent,
                    first_child: NO_NODE,
                    child_count: 0,
                    unknown_below: 0,
                    flags: 0,
                    ext_flags: 0,
                    hardlink_alias: false,
                    mtime: 0,
                    size: Sizes::nothing(),
                },
            ),
            name@.len() <= u16::MAX && old(self).names@.len() <= u32::MAX ==> final(self).name_of(
                id as int,
            ) == name@,
            old(self).named() ==> forall|i: int|
                0 <= i < id ==> #[trigger] final(self).name_of(i) == old(self).name_of(i),
            old(self).named() ==> final(self).named(),
            old(self).wf() && (parent == NO_NODE || parent <= id) ==> final(self).wf(),
    {
        let off: usize = self.names.len();
        let len: usize = name.len();
        self.names.extend_from_slice(name);
        assert(self.names@ =~= old(self).names@ + name@);
        let id: NodeId = self.nodes.len() as NodeId;
        let name_off: u32 = (off as u64 % 0x1_0000_0000) as u32;
        let name_len: u16 = (len % 0x1_0000) as u16;
        self.nodes.push(
            Node {
                name_off,
                name_len,
                kind,
                state,
                detail: 0,
                parent,
                first_child: NO_NODE,
                child_count: 0,
                unknown_below: 0,
                flags: 0,
                ext_flags: 0,
                hardlink_alias: false,
                mtime: 0,
                size: Sizes::default(),
            },
        );
        proof {
            if name@.len() <= u16::MAX && off <= u32::MAX {
                assert(self.name_of(id as int) =~= name@);
            }
            if old(self).named() {
                assert forall|i: int| 0 <= i < id implies #[trigger] self.name_of(i) == old(
                    self,
                ).name_of(i) by {
                    assert(self.nodes@[i] == old(self).nodes@[i]);
                    assert(self.name_of(i) =~= old(self).name_of(i));
                }
                assert forall|i: int| 0 <= i < self.nodes@.len() implies (
                #[trigger] self.nodes@[i]).name_off + self.nodes@[i].name_len
                    <= self.names@.len() by {
                    if i < id {
                        assert(self.nodes@[i] == old(self).nodes@[i]);
                    }
                }
            }
        }
        id
    }

    /// The path of a node, built by following the parents.
    pub fn path(&self, id: NodeId) -> (r: Vec<u8>)
        requires
            id < self.nodes@.len(),
            self.wf(),
        ensures
            r@ == self.path_of(id as int),
    {
        let mut chain: Vec<NodeId> = Vec::new();
        let mut cur: NodeId = id;
        chain.push(id);
        while self.nodes[cur as usize].parent != NO_NODE && self.nodes[cur as usize].parent != cur
            invariant
                self.wf(),
                cur < self.nodes@.len(),
                chain@.len() > 0,
                chain@[0] == id,
                chain@.last() == cur,
                forall|k: int| 0 <= k < chain@.len() ==> (#[trigger] chain@[k]) < self.nodes@.len(),
                forall|k: int|
                    0 <= k < chain@.len() - 1 ==> #[trigger] climbs(self.nodes@, chain@, k),
            decreases cur,
        {
            let ghost below = chain@;
            cur = self.nodes[cur as usize].parent;
            chain.push(cur);
            assert forall|k: int| 0 <= k < chain@.len() - 1 implies #[trigger] climbs(
                self.nodes@,
                chain@,
                k,
            ) by {
                if k < below.len() - 1 {
                    assert(climbs(self.nodes@, below, k));
                }
            }
        }
        let mut k: usize = chain.len() - 1;
        let mut out: Vec<u8> = vstd::slice::slice_to_vec(self.name(chain[k]));
        while k > 0
            invariant
                self.wf(),
                k < chain@.len(),
                chain@[0] == id,
                out@ == self.path_of(chain@[k as int] as int),
                forall|k: int| 0 <= k < chain@.len() ==> (#[trigger] chain@[k]) < self.nodes@.len(),
                forall|k: int|
                    0 <= k < chain@.len() - 1 ==> #[trigger] climbs(self.nodes@, chain@, k),
            decreases k,
        {
            k = k - 1;
            assert(climbs(self.nodes@, chain@, k as int));
            paths::extend(&mut out, self.name(chain[k]));
        }
        out
    }

    /// The ids of the children of a node.
    pub fn child_ids(&self, id: NodeId) -> (r: Vec<NodeId>)
        requires
            id < self.nodes@.len() <= u32::MAX,
            block_in(self.nodes@, id as int),
        ensures
            r@ == block(self.nodes@[id as int]),
    {
        let range = self.nodes[id as usize].children();
        let ghost n = self.nodes@[id as int];
        let mut r: Vec<NodeId> = Vec::new();
        let mut c: NodeId = range.start;
        while c < range.end
            invariant
                range.start <= c <= range.end,
                range.end - range.start == n.child_count,
                n.child_count > 0 ==> range.start == n.first_child,
                r@.len() == c - range.start,
                forall|k: int| 0 <= k < r@.len() ==> (#[trigger] r@[k]) == range.start + k,
            decreases range.end - c,
        {
            r.push(c);
            c = c + 1;
        }
        assert(r@ =~= block(n));
        r
    }

    /// The children of a node by a key, the largest first.
    pub fn children_by<F: Fn(&Node) -> u64>(&self, id: NodeId, key: F) -> (r: Vec<NodeId>)
        requires
            id < self.nodes@.len() <= u32::MAX,
            block_in(self.nodes@, id as int),
            forall|c: int|
                in_block(self.nodes@[id as int], c) ==> call_requires(
                    key,
                    (&#[trigger] self.nodes@[c],),
                ),
        ensures
            order::same_ids(r@, block(self.nodes@[id as int])),
            exists|keys: Seq<u64>|
                ({
                    &&& #[trigger] keyed(key, self.nodes@, id as int, keys)
                    &&& forall|i: int, j: int|
                        0 <= i < j < r@.len()
                            ==> keys[(#[trigger] r@[i]) - self.nodes@[id as int].first_child]
                            >= keys[(#[trigger] r@[j]) - self.nodes@[id as int].first_child]
                }),
    {
        let ids = self.child_ids(id);
        let first: NodeId = self.nodes[id as usize].first_child;
        let ghost n = self.nodes@[id as int];
        let mut keys: Vec<u64> = Vec::with_capacity(ids.len());
        let mut k: usize = 0;
        while k < ids.len()
            invariant
                n == self.nodes@[id as int],
                n.first_child == first,
                ids@ == block(n),
                id < self.nodes@.len() <= u32::MAX,
                block_in(self.nodes@, id as int),
                k <= ids@.len(),
                keys@.len() == k,
                forall|c: int|
                    in_block(n, c) ==> call_requires(key, (&#[trigger] self.nodes@[c],)),
                forall|i: int|
                    0 <= i < k ==> call_ensures(
                        key,
                        (&self.nodes@[first + i],),
                        #[trigger] keys@[i],
                    ),
            decreases ids@.len() - k,
        {
            assert(in_block(n, ids@[k as int] as int));
            let x = key(&self.nodes[ids[k] as usize]);
            keys.push(x);
            k = k + 1;
        }
        let by = LargestFirst { first, keys: &keys };
        let r = order::sort(ids, &by);
        proof {
            assert(keyed(key, self.nodes@, id as int, keys@));
            assert forall|i: int, j: int| 0 <= i < j < r@.len() implies keys@[(
            #[trigger] r@[i]) - first] >= keys@[(#[trigger] r@[j]) - first] by {
                assert(order::Ranking::may_precede(&by, r@[i], r@[j]));
            }
        }
        r
    }

    /// Gives back the room that growing has left unused.
    pub fn shrink(&mut self)
        ensures
            final(self).nodes@ == old(self).nodes@,
            final(self).names@ == old(self).names@,
    {
        foreign::shrink_to_fit(&mut self.nodes);
        foreign::shrink_to_fit(&mut self.names);
    }

    /// About how many bytes the arena takes: what [`arena_bytes`] returns for the
    /// room that the two vectors happen to have. It is at least what the nodes and
    /// the names take; how much more is up to the allocator, within the most that
    /// two vectors can take.
    pub fn memory_bytes(&self) -> (r: usize)
        ensures
            r >= self.nodes@.len() * vstd::layout::size_of::<Node>() + self.names@.len(),
            r <= 2 * isize::MAX,
    {
        let nodes: usize = foreign::capacity(&self.nodes);
        let names: usize = foreign::capacity(&self.names);
        proof {
            broadcast use vstd::layout::group_layout_axioms;

            assert(vstd::layout::size_of::<u8>() == 1);
            let size = vstd::layout::size_of::<Node>();
            assert(nodes * size >= self.nodes@.len() * size) by (nonlinear_arith)
                requires
                    nodes >= self.nodes@.len(),
                    size >= 0,
            ;
        }
        arena_bytes(nodes, names)
    }

    /// Whether [`Tree::rollup`] can be called: whether a node has room for every
    /// sum. In a tree with one root that is a question of the root's alone.
    pub fn rollup_fits(&self) -> (r: bool)
        requires
            rooted(self.nodes@),
        ensures
            r <==> forall|i: int|
                0 <= i < self.nodes@.len() ==> #[trigger] total(self.nodes@, i).fits(),
    {
        let mut logical: u128 = 0;
        let mut physical: u128 = 0;
        let mut exclusive: u128 = 0;
        let mut shared_clones: u128 = 0;
        let mut shared_snapshot: u128 = 0;
        let mut sparse_saving: u128 = 0;
        let mut unknown: u128 = 0;
        let n: usize = self.nodes.len();
        let mut i: usize = 0;
        while i < n
            invariant
                n == self.nodes@.len() <= u32::MAX,
                i <= n,
                (Totals {
                    logical: logical as int,
                    physical: physical as int,
                    exclusive: exclusive as int,
                    shared_clones: shared_clones as int,
                    shared_snapshot: shared_snapshot as int,
                    sparse_saving: sparse_saving as int,
                    unknown: unknown as int,
                }) == tallied(self.nodes@, i as int),
                logical <= i * u64::MAX,
                physical <= i * u64::MAX,
                exclusive <= i * u64::MAX,
                shared_clones <= i * u64::MAX,
                shared_snapshot <= i * u64::MAX,
                sparse_saving <= i * u64::MAX,
                unknown <= i * u64::MAX,
            decreases n - i,
        {
            let x = &self.nodes[i];
            logical = logical + x.size.logical as u128;
            physical = physical + x.size.physical as u128;
            exclusive = exclusive + x.size.exclusive as u128;
            shared_clones = shared_clones + x.size.shared_clones as u128;
            shared_snapshot = shared_snapshot + x.size.shared_snapshot as u128;
            sparse_saving = sparse_saving + x.size.sparse_saving as u128;
            let own: u128 = if matches!(x.state, State::Scanned) {
                0
            } else {
                1
            };
            unknown = unknown + x.unknown_below as u128 + own;
            i = i + 1;
        }
        let max: u128 = u64::MAX as u128;
        let fits = logical <= max && physical <= max && exclusive <= max && shared_clones <= max
            && shared_snapshot <= max && sparse_saving <= max && unknown <= u32::MAX as u128;
        proof {
            assert(fits == tallied(self.nodes@, n as int).fits());
            if n > 0 {
                lemma_root_total(self.nodes@);
                assert(fits == total(self.nodes@, 0).fits());
                if fits {
                    assert forall|j: int| 0 <= j < n implies #[trigger] total(
                        self.nodes@,
                        j,
                    ).fits() by {
                        lemma_total_below_root(self.nodes@, j);
                    }
                }
            }
        }
        fits
    }

    /// Adds the sums of every node to those of its ancestors, so that each node
    /// shows the sums over itself and everything below it.
    pub fn rollup(&mut self)
        requires
            linked(old(self).nodes@),
            forall|i: int|
                0 <= i < old(self).nodes@.len() ==> #[trigger] total(old(self).nodes@, i).fits(),
        ensures
            final(self).names@ == old(self).names@,
            rolled(old(self).nodes@, final(self).nodes@),
    {
        let ghost n0 = self.nodes@;
        let mut i: usize = self.nodes.len();
        while i > 0
            invariant
                linked(n0),
                forall|j: int| 0 <= j < n0.len() ==> #[trigger] total(n0, j).fits(),
                self.names@ == old(self).names@,
                i <= n0.len() == self.nodes@.len(),
                forall|j: int|
                    0 <= j < n0.len() ==> (#[trigger] self.nodes@[j]).same_but_sums(n0[j]),
                forall|j: int|
                    0 <= j < i ==> (#[trigger] self.nodes@[j]).tally() == n0[j].tally().plus(
                        gather(n0, j, i as int),
                    ),
                forall|j: int|
                    i <= j < n0.len() ==> (#[trigger] self.nodes@[j]).shown() == total(n0, j),
            decreases i,
        {
            let ghost before = self.nodes@;
            i = i - 1;
            let n = self.nodes[i];
            proof {
                assert(total(n0, i as int).fits());
                assert(before[i as int].tally() == total(n0, i as int));
            }
            let own: u32 = if matches!(n.state, State::Scanned) {
                0
            } else {
                1
            };
            let unknown: u32 = n.unknown_below + own;
            let shown = Node { unknown_below: unknown, ..n };
            self.nodes[i] = shown;
            if n.parent != NO_NODE && n.parent as usize != i {
                let p: usize = n.parent as usize;
                let mut q = self.nodes[p];
                proof {
                    lemma_gather_natural(n0, p as int, i as int);
                    lemma_gather_below_total(n0, p as int, i as int);
                    assert(total(n0, p as int).fits());
                    assert(before[p as int].tally() == n0[p as int].tally().plus(
                        gather(n0, p as int, i + 1),
                    ));
                }
                q.size.add(&n.size);
                q.unknown_below = q.unknown_below + unknown;
                self.nodes[p] = q;
            }
            proof {
                assert forall|j: int| 0 <= j < i implies (
                #[trigger] self.nodes@[j]).tally() == n0[j].tally().plus(
                    gather(n0, j, i as int),
                ) by {
                    assert(before[j].tally() == n0[j].tally().plus(gather(n0, j, i + 1)));
                }
                assert forall|j: int| i <= j < n0.len() implies (
                #[trigger] self.nodes@[j]).shown() == total(n0, j) by {
                    if j > i {
                        assert(before[j].shown() == total(n0, j));
                    }
                }
                assert forall|j: int| 0 <= j < n0.len() implies (
                #[trigger] self.nodes@[j]).same_but_sums(n0[j]) by {
                    assert(before[j].same_but_sums(n0[j]));
                }
            }
        }
    }
}

impl Default for Tree {
    fn default() -> (r: Self)
        ensures
            r.nodes@.len() == 0,
            r.names@.len() == 0,
    {
        Tree::new()
    }
}

/// The bytes that an arena with room for so many nodes and so many bytes of
/// names takes.
pub fn arena_bytes(nodes: usize, names: usize) -> (r: usize)
    requires
        nodes * vstd::layout::size_of::<Node>() <= isize::MAX,
        names <= isize::MAX,
    ensures
        r == nodes * vstd::layout::size_of::<Node>() + names,
{
    let node: usize = core::mem::size_of::<Node>();
    nodes * node + names
}

/// `keys` holds what `key` returned for each child of node `i`.
pub open spec fn keyed<F: Fn(&Node) -> u64>(
    key: F,
    nodes: Seq<Node>,
    i: int,
    keys: Seq<u64>,
) -> bool {
    &&& keys.len() == nodes[i].child_count
    &&& forall|k: int|
        0 <= k < keys.len() ==> call_ensures(
            key,
            (&nodes[nodes[i].first_child + k],),
            #[trigger] keys[k],
        )
}

/// `after` holds the nodes of `before`, each with the sums over its subtree.
pub open spec fn rolled(before: Seq<Node>, after: Seq<Node>) -> bool {
    &&& after.len() == before.len()
    &&& forall|i: int|
        0 <= i < before.len() ==> {
            &&& (#[trigger] after[i]).same_but_sums(before[i])
            &&& after[i].shown() == total(before, i)
        }
}

/// A path depends on nothing but the names and the parents of the nodes up to
/// its own.
pub proof fn lemma_path_local(
    nodes: Seq<Node>,
    names: Seq<u8>,
    nodes2: Seq<Node>,
    names2: Seq<u8>,
    i: int,
)
    requires
        0 <= i < nodes.len() <= nodes2.len(),
        named_in(nodes, names),
        names2.len() >= names.len(),
        names2.take(names.len() as int) == names,
        forall|k: int|
            0 <= k < nodes.len() ==> {
                &&& (#[trigger] nodes2[k]).name_off == nodes[k].name_off
                &&& nodes2[k].name_len == nodes[k].name_len
                &&& nodes2[k].parent == nodes[k].parent
            },
    ensures
        path_at(nodes2, names2, i) == path_at(nodes, names, i),
        name_at(nodes2, names2, i) == name_at(nodes, names, i),
    decreases i,
{
    let n = nodes[i];
    assert(nodes2[i].parent == n.parent);
    assert(n.name_off + n.name_len <= names.len());
    assert(name_at(nodes2, names2, i) =~= name_at(nodes, names, i)) by {
        assert forall|k: int| n.name_off <= k < n.name_off + n.name_len implies names2[k]
            == names[k] by {
            assert(names2.take(names.len() as int)[k] == names[k]);
        }
    }
    if !is_top(nodes, i) && n.parent < i {
        lemma_path_local(nodes, names, nodes2, names2, n.parent as int);
    }
}

pub proof fn lemma_gather_natural(nodes: Seq<Node>, i: int, lo: int)
    requires
        0 <= i < lo,
    ensures
        gather(nodes, i, lo).natural(),
    decreases nodes.len() - lo,
{
    if lo < nodes.len() {
        lemma_gather_natural(nodes, i, lo + 1);
        lemma_gather_natural(nodes, lo, lo + 1);
        assert(total(nodes, lo) == nodes[lo].tally().plus(gather(nodes, lo, lo + 1)));
    }
}

/// The sums over some of the children are no more than those over all.
pub proof fn lemma_gather_below_total(nodes: Seq<Node>, i: int, lo: int)
    requires
        0 <= i < lo,
        i < nodes.len(),
        total(nodes, i).fits(),
    ensures
        nodes[i].tally().plus(gather(nodes, i, lo)).fits(),
    decreases lo,
{
    if lo > i + 1 {
        lemma_gather_below_total(nodes, i, lo - 1);
        if lo - 1 < nodes.len() {
            lemma_gather_natural(nodes, lo - 1, lo);
            assert(total(nodes, lo - 1) == nodes[lo - 1].tally().plus(gather(nodes, lo - 1, lo)));
        }
    }
}

/// The sums over the first `n` nodes, each counted by itself.
pub open spec fn tallied(nodes: Seq<Node>, n: int) -> Totals
    decreases n,
{
    if n <= 0 {
        Totals::zero()
    } else {
        tallied(nodes, n - 1).plus(nodes[n - 1].tally())
    }
}

/// The sums over the first `k` nodes, each with what the nodes from `k` on hang
/// under it.
spec fn front(nodes: Seq<Node>, n: int, k: int) -> Totals
    decreases n,
{
    if n <= 0 {
        Totals::zero()
    } else {
        front(nodes, n - 1, k).plus(nodes[n - 1].tally().plus(gather(nodes, n - 1, k)))
    }
}

proof fn lemma_front_step(nodes: Seq<Node>, n: int, k: int)
    requires
        rooted(nodes),
        0 <= n <= k < nodes.len(),
        k > 0,
    ensures
        front(nodes, n, k) == (if nodes[k].parent < n {
            front(nodes, n, k + 1).plus(total(nodes, k))
        } else {
            front(nodes, n, k + 1)
        }),
    decreases n,
{
    if n > 0 {
        lemma_front_step(nodes, n - 1, k);
        assert(nodes[k].parent < k);
    }
}

proof fn lemma_front_end(nodes: Seq<Node>, n: int)
    requires
        0 <= n <= nodes.len(),
    ensures
        front(nodes, n, nodes.len() as int) == tallied(nodes, n),
    decreases n,
{
    if n > 0 {
        lemma_front_end(nodes, n - 1);
    }
}

/// In a tree with one root, what each node adds comes together at the root.
pub proof fn lemma_root_total(nodes: Seq<Node>)
    requires
        rooted(nodes),
        nodes.len() > 0,
    ensures
        total(nodes, 0) == tallied(nodes, nodes.len() as int),
{
    lemma_front_at(nodes, 1);
    assert(front(nodes, 1, 1) == front(nodes, 0, 1).plus(
        nodes[0].tally().plus(gather(nodes, 0, 1)),
    ));
}

proof fn lemma_front_at(nodes: Seq<Node>, k: int)
    requires
        rooted(nodes),
        1 <= k <= nodes.len(),
    ensures
        front(nodes, k, k) == tallied(nodes, nodes.len() as int),
    decreases nodes.len() - k,
{
    if k == nodes.len() {
        lemma_front_end(nodes, k);
    } else {
        lemma_front_at(nodes, k + 1);
        lemma_front_step(nodes, k, k);
        assert(nodes[k].parent < k);
        assert(total(nodes, k) == nodes[k].tally().plus(gather(nodes, k, k + 1)));
    }
}

/// No subtree has larger sums than the whole tree.
pub proof fn lemma_total_below_root(nodes: Seq<Node>, i: int)
    requires
        rooted(nodes),
        0 <= i < nodes.len(),
    ensures
        total(nodes, 0).fits() ==> total(nodes, i).fits(),
    decreases i,
{
    if i > 0 {
        let p = nodes[i].parent as int;
        lemma_total_below_root(nodes, p);
        if total(nodes, p).fits() {
            lemma_gather_below_total(nodes, p, i);
            lemma_gather_natural(nodes, p, i + 1);
            lemma_gather_natural(nodes, i, i + 1);
            assert(gather(nodes, p, i) == total(nodes, i).plus(gather(nodes, p, i + 1)));
        }
    }
}

} // verus!
