//! Paths as bytes.

use vstd::prelude::*;

verus! {

pub const SLASH: u8 = 0x2f;

pub const DOT: u8 = 0x2e;

pub open spec fn ends_with_slash(p: Seq<u8>) -> bool {
    p.len() > 0 && p.last() == SLASH
}

/// The path of `name` inside `parent`: a slash stands between the two unless
/// `parent` already ends with one, so that the root gives no `//name`.
pub open spec fn joined(parent: Seq<u8>, name: Seq<u8>) -> Seq<u8> {
    if ends_with_slash(parent) {
        parent + name
    } else {
        parent.push(SLASH) + name
    }
}

/// Appends `name` to the path in `out`.
pub fn extend(out: &mut Vec<u8>, name: &[u8])
    ensures
        final(out)@ == joined(old(out)@, name@),
{
    if !(out.len() > 0 && out[out.len() - 1] == SLASH) {
        out.push(SLASH);
    }
    out.extend_from_slice(name);
    assert(out@ =~= joined(old(out)@, name@));
}

/// The path of `name` inside `parent`.
pub fn join(parent: &[u8], name: &[u8]) -> (r: Vec<u8>)
    ensures
        r@ == joined(parent@, name@),
{
    let mut v = vstd::slice::slice_to_vec(parent);
    extend(&mut v, name);
    v
}

/// The pieces between the slashes, empty ones too.
pub open spec fn pieces(p: Seq<u8>) -> Seq<Seq<u8>>
    decreases p.len(),
{
    if p.len() == 0 {
        seq![Seq::empty()]
    } else {
        let before = pieces(p.drop_last());
        if p.last() == SLASH {
            before.push(Seq::empty())
        } else {
            before.update(before.len() - 1, before.last().push(p.last()))
        }
    }
}

/// The `k`-th piece names something: it is not empty, and not a dot behind
/// which the path goes on as if it were not there. Only at the start of a
/// relative path does a dot count.
pub open spec fn names_something(piece: Seq<u8>, k: int) -> bool {
    piece.len() > 0 && (piece != seq![DOT] || k == 0)
}

/// Those of the first `n` pieces that name something.
pub open spec fn telling(ps: Seq<Seq<u8>>, n: int) -> Seq<Seq<u8>>
    decreases n,
{
    if n <= 0 {
        Seq::empty()
    } else if names_something(ps[n - 1], n - 1) {
        telling(ps, n - 1).push(ps[n - 1])
    } else {
        telling(ps, n - 1)
    }
}

pub open spec fn components(p: Seq<u8>) -> Seq<Seq<u8>> {
    telling(pieces(p), pieces(p).len() as int)
}

pub open spec fn absolute(p: Seq<u8>) -> bool {
    p.len() > 0 && p[0] == SLASH
}

/// The two paths are the same but for repeated and trailing slashes and dots
/// that stand for the directory they are in.
pub open spec fn same(a: Seq<u8>, b: Seq<u8>) -> bool {
    absolute(a) == absolute(b) && components(a) == components(b)
}

proof fn lemma_pieces(p: Seq<u8>, i: int)
    requires
        0 <= i < p.len(),
    ensures
        pieces(p.take(i)).len() > 0,
        pieces(p.take(i + 1)) == (if p[i] == SLASH {
            pieces(p.take(i)).push(Seq::empty())
        } else {
            pieces(p.take(i)).update(
                pieces(p.take(i)).len() - 1,
                pieces(p.take(i)).last().push(p[i]),
            )
        }),
    decreases i,
{
    assert(p.take(i + 1).drop_last() =~= p.take(i));
    if i > 0 {
        lemma_pieces(p, i - 1);
    }
}

/// Only the first `n` pieces matter.
pub proof fn lemma_telling_local(a: Seq<Seq<u8>>, b: Seq<Seq<u8>>, n: int)
    requires
        n <= a.len(),
        n <= b.len(),
        forall|k: int| 0 <= k < n ==> a[k] == b[k],
    ensures
        telling(a, n) == telling(b, n),
    decreases n,
{
    if n > 0 {
        lemma_telling_local(a, b, n - 1);
    }
}

pub open spec fn contents(v: Seq<Vec<u8>>) -> Seq<Seq<u8>> {
    v.map_values(|b: Vec<u8>| b@)
}

fn is_dot(piece: &Vec<u8>) -> (r: bool)
    ensures
        r == (piece@ == seq![DOT]),
{
    let r = piece.len() == 1 && piece[0] == DOT;
    proof {
        if r {
            assert(piece@ =~= seq![DOT]);
        }
    }
    r
}

fn split(p: &[u8]) -> (r: Vec<Vec<u8>>)
    ensures
        contents(r@) == components(p@),
{
    let mut out: Vec<Vec<u8>> = Vec::new();
    let mut piece: Vec<u8> = Vec::new();
    let mut first = true;
    let mut i: usize = 0;
    assert(p@.take(0) =~= Seq::empty());
    assert(contents(out@) =~= telling(pieces(p@.take(0)), 0));
    while i < p.len()
        invariant
            i <= p@.len(),
            ({
                let ps = pieces(p@.take(i as int));
                &&& ps.len() > 0
                &&& piece@ == ps.last()
                &&& first == (ps.len() == 1)
                &&& contents(out@) == telling(ps, ps.len() - 1)
            }),
        decreases p@.len() - i,
    {
        let ghost ps = pieces(p@.take(i as int));
        let ghost next = pieces(p@.take(i + 1));
        proof {
            lemma_pieces(p@, i as int);
            lemma_telling_local(ps, next, ps.len() - 1);
        }
        if p[i] == SLASH {
            proof {
                lemma_telling_local(ps, next, ps.len() as int);
            }
            if piece.len() > 0 && (first || !is_dot(&piece)) {
                let ghost before = out@;
                out.push(piece);
                assert(contents(out@) =~= contents(before).push(ps.last()));
            }
            piece = Vec::new();
            assert(piece@ =~= Seq::empty());
            first = false;
        } else {
            piece.push(p[i]);
        }
        i = i + 1;
    }
    assert(p@.take(i as int) =~= p@);
    if piece.len() > 0 && (first || !is_dot(&piece)) {
        let ghost before = out@;
        let ghost last = piece@;
        out.push(piece);
        assert(contents(out@) =~= contents(before).push(last));
    }
    out
}

fn bytes_equal(a: &Vec<u8>, b: &Vec<u8>) -> (r: bool)
    ensures
        r == (a@ == b@),
{
    if a.len() != b.len() {
        return false;
    }
    let mut i: usize = 0;
    while i < a.len()
        invariant
            i <= a@.len() == b@.len(),
            forall|k: int| 0 <= k < i ==> a@[k] == b@[k],
        decreases a@.len() - i,
    {
        if a[i] != b[i] {
            return false;
        }
        i = i + 1;
    }
    assert(a@ =~= b@);
    true
}

/// Whether the two paths are the same, component by component.
pub fn same_path(a: &[u8], b: &[u8]) -> (r: bool)
    ensures
        r == same(a@, b@),
{
    let from_root = |p: &[u8]| -> (r: bool)
        ensures
            r == absolute(p@),
        { p.len() > 0 && p[0] == SLASH };
    if from_root(a) != from_root(b) {
        return false;
    }
    let x = split(a);
    let y = split(b);
    if x.len() != y.len() {
        assert(contents(x@).len() != contents(y@).len());
        return false;
    }
    let mut i: usize = 0;
    while i < x.len()
        invariant
            i <= x@.len() == y@.len(),
            contents(x@) == components(a@),
            contents(y@) == components(b@),
            forall|k: int| 0 <= k < i ==> contents(x@)[k] == contents(y@)[k],
        decreases x@.len() - i,
    {
        if !bytes_equal(&x[i], &y[i]) {
            assert(contents(x@)[i as int] != contents(y@)[i as int]);
            return false;
        }
        i = i + 1;
    }
    assert(contents(x@) =~= contents(y@));
    true
}

} // verus!
