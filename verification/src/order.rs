//! Sorting ids.

use vstd::prelude::*;
use crate::model::{NodeId, Tree};

verus! {

/// A way to rank ids. Two ids may have the same rank.
pub trait Ranking {
    /// The ids that have a rank.
    spec fn ranks(&self, id: NodeId) -> bool;

    /// `a` may stand before `b`.
    spec fn may_precede(&self, a: NodeId, b: NodeId) -> bool;

    proof fn lemma_total(&self, a: NodeId, b: NodeId)
        requires
            self.ranks(a),
            self.ranks(b),
        ensures
            self.may_precede(a, b) || self.may_precede(b, a),
    ;

    proof fn lemma_transitive(&self, a: NodeId, b: NodeId, c: NodeId)
        requires
            self.ranks(a),
            self.ranks(b),
            self.ranks(c),
            self.may_precede(a, b),
            self.may_precede(b, c),
        ensures
            self.may_precede(a, c),
    ;

    fn precedes(&self, a: NodeId, b: NodeId) -> (r: bool)
        requires
            self.ranks(a),
            self.ranks(b),
        ensures
            r == self.may_precede(a, b),
    ;
}

pub open spec fn all_ranked<R: Ranking>(by: R, ids: Seq<NodeId>) -> bool {
    forall|i: int| 0 <= i < ids.len() ==> by.ranks(#[trigger] ids[i])
}

pub open spec fn sorted<R: Ranking>(by: R, ids: Seq<NodeId>) -> bool {
    forall|i: int, j: int| 0 <= i < j < ids.len() ==> by.may_precede(#[trigger] ids[i], #[trigger] ids[j])
}

/// Every id of the one sequence is as often in the other.
pub open spec fn same_ids(a: Seq<NodeId>, b: Seq<NodeId>) -> bool {
    a.to_multiset() == b.to_multiset()
}

/// No id of `out` ranks behind the one at `i` of `rest`.
spec fn bounded<R: Ranking>(by: R, out: Seq<NodeId>, rest: Seq<NodeId>, i: int) -> bool {
    i < rest.len() ==> forall|k: int|
        0 <= k < out.len() ==> by.may_precede(#[trigger] out[k], rest[i])
}

proof fn lemma_take_one<R: Ranking>(by: R, out: Seq<NodeId>, x: Seq<NodeId>, i: int, y: Seq<NodeId>, j: int)
    requires
        all_ranked(by, out),
        all_ranked(by, x),
        all_ranked(by, y),
        sorted(by, out),
        sorted(by, x),
        0 <= i < x.len(),
        0 <= j <= y.len(),
        bounded(by, out, x, i),
        bounded(by, out, y, j),
        j < y.len() ==> by.may_precede(x[i], y[j]),
        out.to_multiset() == x.take(i).to_multiset().add(y.take(j).to_multiset()),
    ensures
        all_ranked(by, out.push(x[i])),
        sorted(by, out.push(x[i])),
        bounded(by, out.push(x[i]), x, i + 1),
        bounded(by, out.push(x[i]), y, j),
        out.push(x[i]).to_multiset() == x.take(i + 1).to_multiset().add(y.take(j).to_multiset()),
{
    broadcast use vstd::seq_lib::group_to_multiset_ensures;

    let next = out.push(x[i]);
    assert(x.take(i + 1) =~= x.take(i).push(x[i]));
    assert(next.to_multiset() =~= x.take(i + 1).to_multiset().add(y.take(j).to_multiset()));
    if i + 1 < x.len() {
        assert(by.may_precede(x[i], x[i + 1]));
        assert forall|k: int| 0 <= k < next.len() implies by.may_precede(
            #[trigger] next[k],
            x[i + 1],
        ) by {
            if k < out.len() {
                by.lemma_transitive(out[k], x[i], x[i + 1]);
            }
        }
    }
}

fn merge<R: Ranking>(a: &Vec<NodeId>, b: &Vec<NodeId>, by: &R) -> (r: Vec<NodeId>)
    requires
        all_ranked(*by, a@),
        all_ranked(*by, b@),
        sorted(*by, a@),
        sorted(*by, b@),
    ensures
        sorted(*by, r@),
        same_ids(r@, a@ + b@),
{
    let mut r: Vec<NodeId> = Vec::with_capacity(a.len());
    let mut i: usize = 0;
    let mut j: usize = 0;
    proof {
        broadcast use vstd::seq_lib::group_to_multiset_ensures;

        assert(a@.take(0) =~= Seq::empty());
        assert(b@.take(0) =~= Seq::empty());
        assert(r@.to_multiset() =~= a@.take(0).to_multiset().add(b@.take(0).to_multiset()));
    }
    while i < a.len() || j < b.len()
        invariant
            i <= a@.len(),
            j <= b@.len(),
            all_ranked(*by, a@),
            all_ranked(*by, b@),
            all_ranked(*by, r@),
            sorted(*by, a@),
            sorted(*by, b@),
            sorted(*by, r@),
            bounded(*by, r@, a@, i as int),
            bounded(*by, r@, b@, j as int),
            r@.to_multiset() == a@.take(i as int).to_multiset().add(
                b@.take(j as int).to_multiset(),
            ),
        decreases a@.len() - i + b@.len() - j,
    {
        let from_a = if i == a.len() {
            false
        } else if j == b.len() {
            true
        } else {
            by.precedes(a[i], b[j])
        };
        if from_a {
            proof {
                lemma_take_one(*by, r@, a@, i as int, b@, j as int);
            }
            r.push(a[i]);
            i = i + 1;
        } else {
            proof {
                if i < a.len() {
                    by.lemma_total(a@[i as int], b@[j as int]);
                }
                assert(a@.take(i as int).to_multiset().add(b@.take(j as int).to_multiset())
                    =~= b@.take(j as int).to_multiset().add(a@.take(i as int).to_multiset()));
                lemma_take_one(*by, r@, b@, j as int, a@, i as int);
                assert(a@.take(i as int).to_multiset().add(b@.take(j + 1).to_multiset())
                    =~= b@.take(j + 1).to_multiset().add(a@.take(i as int).to_multiset()));
            }
            r.push(b[j]);
            j = j + 1;
        }
    }
    proof {
        assert(a@.take(i as int) =~= a@);
        assert(b@.take(j as int) =~= b@);
        vstd::seq_lib::lemma_multiset_commutative(a@, b@);
    }
    r
}

/// Puts the ids in order. What has the same rank comes out in either order.
pub fn sort<R: Ranking>(ids: Vec<NodeId>, by: &R) -> (r: Vec<NodeId>)
    requires
        all_ranked(*by, ids@),
    ensures
        sorted(*by, r@),
        same_ids(r@, ids@),
    decreases ids@.len(),
{
    if ids.len() < 2 {
        return ids;
    }
    let mid: usize = ids.len() / 2;
    let a = vstd::slice::slice_to_vec(vstd::slice::slice_subrange(ids.as_slice(), 0, mid));
    let b = vstd::slice::slice_to_vec(vstd::slice::slice_subrange(ids.as_slice(), mid, ids.len()));
    let ghost low = a@;
    let ghost high = b@;
    assert(low + high =~= ids@);
    let a = sort(a, by);
    let b = sort(b, by);
    proof {
        lemma_same_ids_ranked(*by, low, a@);
        lemma_same_ids_ranked(*by, high, b@);
        vstd::seq_lib::lemma_multiset_commutative(low, high);
        vstd::seq_lib::lemma_multiset_commutative(a@, b@);
    }
    merge(&a, &b, by)
}

proof fn lemma_same_ids_ranked<R: Ranking>(by: R, a: Seq<NodeId>, b: Seq<NodeId>)
    requires
        all_ranked(by, a),
        same_ids(b, a),
    ensures
        all_ranked(by, b),
{
    assert forall|i: int| 0 <= i < b.len() implies by.ranks(#[trigger] b[i]) by {
        lemma_same_ids_contains(a, b, b[i]);
        let k = choose|k: int| 0 <= k < a.len() && a[k] == b[i];
        assert(by.ranks(a[k]));
    }
}

/// Sequences with the same ids have the same length and the same members.
pub proof fn lemma_same_ids_contains(a: Seq<NodeId>, b: Seq<NodeId>, id: NodeId)
    requires
        same_ids(a, b),
    ensures
        a.len() == b.len(),
        a.contains(id) <==> b.contains(id),
{
    broadcast use vstd::seq_lib::group_to_multiset_ensures;

    assert(a.contains(id) <==> a.to_multiset().count(id) > 0);
    assert(b.contains(id) <==> b.to_multiset().count(id) > 0);
    assert(a.len() == a.to_multiset().len());
    assert(b.len() == b.to_multiset().len());
}

/// From place `k` on, `a` comes before `b` in the order of a dictionary, or the
/// two are the same.
pub open spec fn bytes_le_from(a: Seq<u8>, b: Seq<u8>, k: int) -> bool
    decreases a.len() - k,
{
    if k >= a.len() {
        true
    } else if k >= b.len() {
        false
    } else if a[k] == b[k] {
        bytes_le_from(a, b, k + 1)
    } else {
        a[k] < b[k]
    }
}

/// The order of a dictionary, over bytes.
pub open spec fn bytes_le(a: Seq<u8>, b: Seq<u8>) -> bool {
    bytes_le_from(a, b, 0)
}

proof fn lemma_bytes_total(a: Seq<u8>, b: Seq<u8>, k: int)
    requires
        0 <= k,
    ensures
        bytes_le_from(a, b, k) || bytes_le_from(b, a, k),
    decreases a.len() - k,
{
    if k < a.len() && k < b.len() && a[k] == b[k] {
        lemma_bytes_total(a, b, k + 1);
    }
}

proof fn lemma_bytes_transitive(a: Seq<u8>, b: Seq<u8>, c: Seq<u8>, k: int)
    requires
        0 <= k,
        bytes_le_from(a, b, k),
        bytes_le_from(b, c, k),
    ensures
        bytes_le_from(a, c, k),
    decreases a.len() - k,
{
    if k < a.len() && k < b.len() && k < c.len() && a[k] == b[k] && b[k] == c[k] {
        lemma_bytes_transitive(a, b, c, k + 1);
    }
}

pub fn bytes_precede(a: &[u8], b: &[u8]) -> (r: bool)
    ensures
        r == bytes_le(a@, b@),
{
    let mut k: usize = 0;
    while k < a.len() && k < b.len() && a[k] == b[k]
        invariant
            k <= a@.len(),
            k <= b@.len(),
            bytes_le(a@, b@) == bytes_le_from(a@, b@, k as int),
        decreases a@.len() - k,
    {
        k = k + 1;
    }
    if k == a.len() {
        true
    } else if k == b.len() {
        false
    } else {
        a[k] < b[k]
    }
}

/// What nodes can be listed by.
#[derive(Clone, Copy, Debug, PartialEq, Eq, Structural)]
pub enum Column {
    Physical,
    Exclusive,
    Logical,
    Name,
    Mtime,
}

/// Nodes of a tree by one of their columns, in ascending or descending order.
pub struct ByColumn<'a> {
    pub tree: &'a Tree,
    pub column: Column,
    pub descending: bool,
}

/// The number in a column that holds numbers.
pub open spec fn cell(tree: Tree, column: Column, id: NodeId) -> int {
    let n = tree.nodes@[id as int];
    match column {
        Column::Physical => n.size.physical as int,
        Column::Exclusive => n.size.exclusive as int,
        Column::Logical => n.size.logical as int,
        Column::Mtime => n.mtime as int,
        Column::Name => 0,
    }
}

/// `a` is at most `b` in the column.
pub open spec fn column_le(tree: Tree, column: Column, a: NodeId, b: NodeId) -> bool {
    if column is Name {
        bytes_le(tree.name_of(a as int), tree.name_of(b as int))
    } else {
        cell(tree, column, a) <= cell(tree, column, b)
    }
}

/// `a` comes before `b` in the column; of those that are equal in it, the smaller
/// id comes first.
pub open spec fn place_le(tree: Tree, column: Column, a: NodeId, b: NodeId) -> bool {
    column_le(tree, column, a, b) && (column_le(tree, column, b, a) ==> a <= b)
}

proof fn lemma_column_total(tree: Tree, column: Column, a: NodeId, b: NodeId)
    ensures
        column_le(tree, column, a, b) || column_le(tree, column, b, a),
{
    lemma_bytes_total(tree.name_of(a as int), tree.name_of(b as int), 0);
}

proof fn lemma_column_transitive(tree: Tree, column: Column, a: NodeId, b: NodeId, c: NodeId)
    requires
        column_le(tree, column, a, b),
        column_le(tree, column, b, c),
    ensures
        column_le(tree, column, a, c),
{
    if column is Name {
        lemma_bytes_transitive(
            tree.name_of(a as int),
            tree.name_of(b as int),
            tree.name_of(c as int),
            0,
        );
    }
}

proof fn lemma_place_transitive(tree: Tree, column: Column, a: NodeId, b: NodeId, c: NodeId)
    requires
        place_le(tree, column, a, b),
        place_le(tree, column, b, c),
    ensures
        place_le(tree, column, a, c),
{
    lemma_column_transitive(tree, column, a, b, c);
    if column_le(tree, column, c, a) {
        lemma_column_transitive(tree, column, b, c, a);
        lemma_column_transitive(tree, column, c, a, b);
    }
}

impl<'a> ByColumn<'a> {
    fn le(&self, a: NodeId, b: NodeId) -> (r: bool)
        requires
            self.ranks(a),
            self.ranks(b),
        ensures
            r == column_le(*self.tree, self.column, a, b),
    {
        let x = self.tree.node(a);
        let y = self.tree.node(b);
        match self.column {
            Column::Physical => x.size.physical <= y.size.physical,
            Column::Exclusive => x.size.exclusive <= y.size.exclusive,
            Column::Logical => x.size.logical <= y.size.logical,
            Column::Mtime => x.mtime <= y.mtime,
            Column::Name => bytes_precede(self.tree.name(a), self.tree.name(b)),
        }
    }
}

impl<'a> Ranking for ByColumn<'a> {
    open spec fn ranks(&self, id: NodeId) -> bool {
        self.tree.named() && id < self.tree.nodes@.len()
    }

    /// Descending, the whole order is turned round, ids that are equal in the
    /// column too.
    open spec fn may_precede(&self, a: NodeId, b: NodeId) -> bool {
        if self.descending {
            place_le(*self.tree, self.column, b, a)
        } else {
            place_le(*self.tree, self.column, a, b)
        }
    }

    proof fn lemma_total(&self, a: NodeId, b: NodeId) {
        lemma_column_total(*self.tree, self.column, a, b);
    }

    proof fn lemma_transitive(&self, a: NodeId, b: NodeId, c: NodeId) {
        if self.descending {
            lemma_place_transitive(*self.tree, self.column, c, b, a);
        } else {
            lemma_place_transitive(*self.tree, self.column, a, b, c);
        }
    }

    fn precedes(&self, a: NodeId, b: NodeId) -> (r: bool) {
        let (x, y): (NodeId, NodeId) = if self.descending {
            (b, a)
        } else {
            (a, b)
        };
        self.le(x, y) && (x <= y || !self.le(y, x))
    }
}

/// There is one order by a column: ids that are sorted by it are sorted in one way.
pub proof fn lemma_one_order<'a>(by: ByColumn<'a>, a: Seq<NodeId>, b: Seq<NodeId>)
    requires
        sorted(by, a),
        sorted(by, b),
        same_ids(a, b),
    ensures
        a == b,
    decreases a.len(),
{
    broadcast use vstd::seq_lib::group_to_multiset_ensures;

    if a.len() == 0 {
        lemma_same_ids_contains(a, b, 0);
        assert(a =~= b);
    } else {
        lemma_same_ids_contains(a, b, a[0]);
        assert(a.contains(a[0]));
        let k = choose|k: int| 0 <= k < b.len() && b[k] == a[0];
        lemma_same_ids_contains(a, b, b[0]);
        assert(b.contains(b[0]));
        let j = choose|j: int| 0 <= j < a.len() && a[j] == b[0];
        if k > 0 && j > 0 {
            assert(by.may_precede(b[0], b[k]));
            assert(by.may_precede(a[0], a[j]));
        }
        assert(a[0] == b[0]);
        let x = a.remove(0);
        let y = b.remove(0);
        assert(same_ids(x, y));
        assert forall|i: int, j: int| 0 <= i < j < x.len() implies by.may_precede(
            #[trigger] x[i],
            #[trigger] x[j],
        ) by {
            assert(by.may_precede(a[i + 1], a[j + 1]));
        }
        assert forall|i: int, j: int| 0 <= i < j < y.len() implies by.may_precede(
            #[trigger] y[i],
            #[trigger] y[j],
        ) by {
            assert(by.may_precede(b[i + 1], b[j + 1]));
        }
        lemma_one_order(by, x, y);
        assert(a =~= seq![a[0]] + x);
        assert(b =~= seq![b[0]] + y);
    }
}

/// Ids from `first` on by keys that were worked out beforehand, the largest
/// first.
pub struct LargestFirst<'a> {
    pub first: NodeId,
    pub keys: &'a Vec<u64>,
}

impl<'a> Ranking for LargestFirst<'a> {
    open spec fn ranks(&self, id: NodeId) -> bool {
        self.first <= id < self.first + self.keys@.len()
    }

    open spec fn may_precede(&self, a: NodeId, b: NodeId) -> bool {
        self.keys@[a - self.first] >= self.keys@[b - self.first]
    }

    proof fn lemma_total(&self, a: NodeId, b: NodeId) {
    }

    proof fn lemma_transitive(&self, a: NodeId, b: NodeId, c: NodeId) {
    }

    fn precedes(&self, a: NodeId, b: NodeId) -> (r: bool) {
        self.keys[(a - self.first) as usize] >= self.keys[(b - self.first) as usize]
    }
}

} // verus!
