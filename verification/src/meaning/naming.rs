//! What paths are made of, and when two are the same.

use vstd::prelude::*;
use crate::model;
use crate::model::{Node, NO_NODE};
use crate::paths;
use super::walking;

verus! {

/// A name that a directory can hold.
pub open spec fn is_name(s: Seq<u8>) -> bool {
    s.len() > 0 && forall|i: int| 0 <= i < s.len() ==> #[trigger] s[i] != 0x2f
}

proof fn lemma_pieces_push(p: Seq<u8>, c: u8)
    ensures
        paths::pieces(p).len() > 0,
        c == 0x2f ==> paths::pieces(p.push(c)) == paths::pieces(p).push(Seq::empty()),
        c != 0x2f ==> paths::pieces(p.push(c)) == paths::pieces(p).update(
            paths::pieces(p).len() - 1,
            paths::pieces(p).last().push(c),
        ),
    decreases p.len(),
{
    assert(p.push(c).drop_last() =~= p);
    if p.len() > 0 {
        lemma_pieces_push(p.drop_last(), p.last());
        assert(p.drop_last().push(p.last()) =~= p);
    }
}

/// What is behind a slash is a piece of its own.
proof fn lemma_pieces_name(p: Seq<u8>, name: Seq<u8>)
    requires
        forall|i: int| 0 <= i < name.len() ==> #[trigger] name[i] != 0x2f,
    ensures
        paths::pieces(p.push(0x2f) + name) == paths::pieces(p).push(name),
        paths::pieces(p).len() > 0,
    decreases name.len(),
{
    lemma_pieces_push(p, 0x2f);
    if name.len() == 0 {
        assert(p.push(0x2f) + name =~= p.push(0x2f));
        assert(name =~= Seq::empty());
    } else {
        let front = name.drop_last();
        assert forall|i: int| 0 <= i < front.len() implies #[trigger] front[i] != 0x2f by {
            assert(front[i] == name[i]);
        }
        lemma_pieces_name(p, front);
        assert(p.push(0x2f) + name =~= (p.push(0x2f) + front).push(name.last()));
        lemma_pieces_push(p.push(0x2f) + front, name.last());
        assert(front.push(name.last()) =~= name);
        assert(paths::pieces(p).push(front).update(
            paths::pieces(p).len() as int,
            name,
        ) =~= paths::pieces(p).push(name));
        assert(name[name.len() - 1] != 0x2f);
    }
}

/// A name by itself is one piece.
proof fn lemma_pieces_alone(name: Seq<u8>)
    requires
        forall|i: int| 0 <= i < name.len() ==> #[trigger] name[i] != 0x2f,
    ensures
        paths::pieces(name) == seq![name],
    decreases name.len(),
{
    if name.len() == 0 {
        assert(name =~= Seq::empty());
    } else {
        let front = name.drop_last();
        assert forall|i: int| 0 <= i < front.len() implies #[trigger] front[i] != 0x2f by {
            assert(front[i] == name[i]);
        }
        lemma_pieces_alone(front);
        assert(front.push(name.last()) =~= name);
        lemma_pieces_push(front, name.last());
        assert(name[name.len() - 1] != 0x2f);
        assert(paths::pieces(name) =~= seq![name]);
    }
}

/// A name behind a slash is one component more, unless it is a lone dot, which
/// stands for the directory before it.
pub proof fn law_a_name_adds_a_component(p: Seq<u8>, name: Seq<u8>)
    requires
        is_name(name),
    ensures
        !(name.len() == 1 && name[0] == 0x2e) ==> paths::components(p.push(0x2f) + name)
            == paths::components(p).push(name),
        name.len() == 1 && name[0] == 0x2e ==> paths::components(p.push(0x2f) + name)
            == paths::components(p),
{
    lemma_pieces_name(p, name);
    let a = paths::pieces(p);
    let b = a.push(name);
    paths::lemma_telling_local(a, b, a.len() as int);
    if name.len() == 1 && name[0] == 0x2e {
        assert(name =~= seq![paths::DOT]);
    }
    assert(b[b.len() - 1] == name);
}

/// A slash at the end adds no component, however many there are.
pub proof fn law_a_slash_adds_no_component(p: Seq<u8>)
    ensures
        paths::components(p.push(0x2f)) == paths::components(p),
{
    lemma_pieces_push(p, 0x2f);
    let a = paths::pieces(p);
    let b = a.push(Seq::empty());
    paths::lemma_telling_local(a, b, a.len() as int);
    assert(b[b.len() - 1].len() == 0);
}

/// The empty path has no component, and a name by itself, even a dot, is the only
/// one of its path.
pub proof fn law_a_name_alone_is_its_component(name: Seq<u8>)
    requires
        name.len() == 0 || is_name(name),
    ensures
        name.len() == 0 ==> paths::components(name) =~= Seq::<Seq<u8>>::empty(),
        name.len() > 0 ==> paths::components(name) == seq![name],
{
    lemma_pieces_alone(name);
    let a = paths::pieces(name);
    assert(a[0] == name);
    reveal_with_fuel(paths::telling, 2);
    if name.len() > 0 {
        assert(paths::components(name) =~= seq![name]);
    }
}

/// Two paths are the same just if both or neither begin at the root, and their
/// components agree.
pub proof fn law_when_paths_are_the_same(a: Seq<u8>, b: Seq<u8>)
    ensures
        paths::same(a, b) <==> ((a.len() > 0 && a[0] == 0x2f) <==> (b.len() > 0 && b[0] == 0x2f))
            && paths::components(a) == paths::components(b),
        paths::same(a, a),
        paths::same(a, b) <==> paths::same(b, a),
{
}

/// A slash or a lone dot at the end of a path changes nothing.
pub proof fn law_slashes_and_dots_at_the_end(p: Seq<u8>)
    requires
        p.len() > 0,
    ensures
        paths::same(p, p.push(0x2f)),
        paths::same(p, p.push(0x2f).push(0x2e)),
{
    law_a_slash_adds_no_component(p);
    let dot = seq![0x2eu8];
    assert(is_name(dot));
    law_a_name_adds_a_component(p, dot);
    assert(p.push(0x2f) + dot =~= p.push(0x2f).push(0x2e));
}

/// In one directory, different names are different places.
pub proof fn law_names_tell_places_apart(dir: Seq<u8>, a: Seq<u8>, b: Seq<u8>)
    requires
        is_name(a),
        is_name(b),
        !(a.len() == 1 && a[0] == 0x2e),
        !(b.len() == 1 && b[0] == 0x2e),
    ensures
        paths::same(walking::path_in(dir, a), walking::path_in(dir, b)) <==> a == b,
{
    let base = if dir.len() > 0 && dir[dir.len() - 1] == 0x2f {
        dir.drop_last()
    } else {
        dir
    };
    assert(walking::path_in(dir, a) =~= base.push(0x2f) + a);
    assert(walking::path_in(dir, b) =~= base.push(0x2f) + b);
    law_a_name_adds_a_component(base, a);
    law_a_name_adds_a_component(base, b);
    let x = paths::components(base);
    if x.push(a) == x.push(b) {
        assert(x.push(a).last() == a);
        assert(x.push(b).last() == b);
    }
}

/// A name is put behind its directory with one slash between the two.
pub proof fn law_one_slash_between(dir: Seq<u8>, name: Seq<u8>)
    ensures
        dir.len() > 0 && dir[dir.len() - 1] == 0x2f ==> paths::joined(dir, name) == dir + name,
        dir.len() == 0 || dir[dir.len() - 1] != 0x2f ==> paths::joined(dir, name) == dir
            + seq![0x2fu8] + name,
{
    assert(dir + seq![0x2fu8] =~= dir.push(paths::SLASH));
}

/// The path of a node that hangs under another is its name in the path of the
/// other; the path of one that does not is its name.
pub proof fn law_paths_follow_the_parents(nodes: Seq<Node>, names: Seq<u8>, i: int)
    requires
        model::linked(nodes),
        0 <= i < nodes.len(),
    ensures
        nodes[i].parent < i ==> model::path_at(nodes, names, i) == walking::path_in(
            model::path_at(nodes, names, nodes[i].parent as int),
            model::name_at(nodes, names, i),
        ),
        nodes[i].parent == NO_NODE || nodes[i].parent == i ==> model::path_at(nodes, names, i)
            == model::name_at(nodes, names, i),
        nodes[i].name_off + nodes[i].name_len <= names.len() ==> {
            let name = model::name_at(nodes, names, i);
            &&& name.len() == nodes[i].name_len
            &&& forall|k: int|
                0 <= k < name.len() ==> #[trigger] name[k] == names[nodes[i].name_off + k]
        },
{
    if nodes[i].parent < i {
        let dir = model::path_at(nodes, names, nodes[i].parent as int);
        law_one_slash_between(dir, model::name_at(nodes, names, i));
    }
}

} // verus!
