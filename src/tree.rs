//! A finite directory tree, as the caller of a walk finds it on the
//! filesystem, and what a walk over it records.
use vstd::prelude::*;
use vstd::multiset::Multiset;
use crate::walk::Walk;

verus! {

/// An entry below the root: its raw path, as a walk hands it out, and its
/// canonical path; a directory also has its entries.
pub enum Node {
    File(Seq<char>, Seq<char>),
    Dir(Seq<char>, Seq<char>, Seq<Node>),
}

impl Node {
    pub open spec fn raw(self) -> Seq<char> {
        match self {
            Node::File(r, _) => r,
            Node::Dir(r, _, _) => r,
        }
    }

    pub open spec fn canonical(self) -> Seq<char> {
        match self {
            Node::File(_, c) => c,
            Node::Dir(_, c, _) => c,
        }
    }
}

/// The raw paths of a sequence of entries.
pub open spec fn raws(q: Seq<Node>) -> Seq<Seq<char>> {
    q.map_values(|n: Node| n.raw())
}

pub open spec fn node_size(n: Node) -> nat
    decreases n,
{
    match n {
        Node::File(_, _) => 1,
        Node::Dir(_, _, ch) => 1 + forest_size(ch),
    }
}

pub open spec fn forest_size(q: Seq<Node>) -> nat
    decreases q,
{
    if q.len() == 0 {
        0
    } else {
        node_size(q[0]) + forest_size(q.subrange(1, q.len() as int))
    }
}

/// The number of regular files in a node, itself included.
pub open spec fn node_files(n: Node) -> nat
    decreases n,
{
    match n {
        Node::File(_, _) => 1,
        Node::Dir(_, _, ch) => forest_files(ch),
    }
}

/// The number of regular files in a sequence of entries, at any depth.
pub open spec fn forest_files(q: Seq<Node>) -> nat
    decreases q,
{
    if q.len() == 0 {
        0
    } else {
        node_files(q[0]) + forest_files(q.subrange(1, q.len() as int))
    }
}

/// The number of directories in a node, itself included.
pub open spec fn node_dirs(n: Node) -> nat
    decreases n,
{
    match n {
        Node::File(_, _) => 0,
        Node::Dir(_, _, ch) => 1 + forest_dirs(ch),
    }
}

/// The number of directories in a sequence of entries, at any depth.
pub open spec fn forest_dirs(q: Seq<Node>) -> nat
    decreases q,
{
    if q.len() == 0 {
        0
    } else {
        node_dirs(q[0]) + forest_dirs(q.subrange(1, q.len() as int))
    }
}

proof fn lemma_forest_concat(a: Seq<Node>, b: Seq<Node>)
    ensures
        forest_size(a + b) == forest_size(a) + forest_size(b),
        forest_files(a + b) == forest_files(a) + forest_files(b),
        forest_dirs(a + b) == forest_dirs(a) + forest_dirs(b),
    decreases a.len(),
{
    if a.len() == 0 {
        assert(a + b =~= b);
    } else {
        let rest = a.subrange(1, a.len() as int);
        lemma_forest_concat(rest, b);
        assert((a + b).subrange(1, (a + b).len() as int) =~= rest + b);
        assert((a + b)[0] == a[0]);
    }
}

/// The step of a walk: the first entry is taken out, and the entries of a
/// directory go to the back of the queue.
pub open spec fn after_first(q: Seq<Node>) -> Seq<Node>
    recommends
        q.len() > 0,
{
    match q[0] {
        Node::File(_, _) => q.subrange(1, q.len() as int),
        Node::Dir(_, _, ch) => q.subrange(1, q.len() as int) + ch,
    }
}

#[via_fn]
proof fn lemma_after_first_smaller(q: Seq<Node>) {
    if q.len() > 0 {
        let rest = q.subrange(1, q.len() as int);
        assert(forest_size(q) == node_size(q[0]) + forest_size(rest));
        match q[0] {
            Node::File(_, _) => {
                assert(after_first(q) == rest);
            },
            Node::Dir(_, _, ch) => {
                lemma_forest_concat(rest, ch);
                assert(after_first(q) == rest + ch);
                assert(node_size(q[0]) == 1 + forest_size(ch));
            },
        }
    }
}

/// What a walk records over the queue `q`, in breadth-first order: the
/// canonical paths of the files, and those of the directories.
pub open spec fn walk_of(q: Seq<Node>) -> (Seq<Seq<char>>, Seq<Seq<char>>)
    decreases forest_size(q),
    via lemma_after_first_smaller
{
    if q.len() == 0 {
        (Seq::empty(), Seq::empty())
    } else {
        let r = walk_of(after_first(q));
        match q[0] {
            Node::File(_, c) => (seq![c] + r.0, r.1),
            Node::Dir(_, c, _) => (r.0, seq![c] + r.1),
        }
    }
}

/// A walk over a finite tree records exactly as many files and directories
/// as the tree holds below its root.
pub proof fn lemma_walk_counts(q: Seq<Node>)
    ensures
        walk_of(q).0.len() == forest_files(q),
        walk_of(q).1.len() == forest_dirs(q),
    decreases forest_size(q),
{
    if q.len() > 0 {
        let rest = q.subrange(1, q.len() as int);
        assert(forest_size(q) == node_size(q[0]) + forest_size(rest));
        assert(forest_files(q) == node_files(q[0]) + forest_files(rest));
        assert(forest_dirs(q) == node_dirs(q[0]) + forest_dirs(rest));
        match q[0] {
            Node::File(_, _) => {
                assert(after_first(q) == rest);
            },
            Node::Dir(_, _, ch) => {
                lemma_forest_concat(rest, ch);
                assert(after_first(q) == rest + ch);
                assert(node_size(q[0]) == 1 + forest_size(ch));
                assert(node_files(q[0]) == forest_files(ch));
                assert(node_dirs(q[0]) == 1 + forest_dirs(ch));
            },
        }
        lemma_walk_counts(after_first(q));
    }
}

/// The canonical paths in a node, itself included.
pub open spec fn node_paths(n: Node) -> Multiset<Seq<char>>
    decreases n,
{
    match n {
        Node::File(_, c) => Multiset::singleton(c),
        Node::Dir(_, c, ch) => Multiset::singleton(c).add(forest_paths(ch)),
    }
}

/// The canonical paths in a sequence of entries, at any depth.
pub open spec fn forest_paths(q: Seq<Node>) -> Multiset<Seq<char>>
    decreases q,
{
    if q.len() == 0 {
        Multiset::empty()
    } else {
        node_paths(q[0]).add(forest_paths(q.subrange(1, q.len() as int)))
    }
}

proof fn lemma_forest_paths_concat(a: Seq<Node>, b: Seq<Node>)
    ensures
        forest_paths(a + b) == forest_paths(a).add(forest_paths(b)),
    decreases a.len(),
{
    broadcast use vstd::multiset::group_multiset_axioms;
    if a.len() == 0 {
        assert(a + b =~= b);
        assert(forest_paths(a + b) =~= forest_paths(a).add(forest_paths(b)));
    } else {
        let rest = a.subrange(1, a.len() as int);
        lemma_forest_paths_concat(rest, b);
        assert((a + b).subrange(1, (a + b).len() as int) =~= rest + b);
        assert((a + b)[0] == a[0]);
        assert(forest_paths(a + b) =~= forest_paths(a).add(forest_paths(b)));
    }
}

proof fn lemma_walk_multiset(q: Seq<Node>)
    ensures
        (walk_of(q).0 + walk_of(q).1).to_multiset() == forest_paths(q),
    decreases forest_size(q),
{
    broadcast use vstd::multiset::group_multiset_axioms;
    broadcast use vstd::seq_lib::lemma_multiset_commutative;
    broadcast use vstd::seq_lib::group_to_multiset_ensures;
    if q.len() == 0 {
        assert((walk_of(q).0 + walk_of(q).1).to_multiset() =~= forest_paths(q));
    } else {
        let rest = q.subrange(1, q.len() as int);
        assert(forest_size(q) == node_size(q[0]) + forest_size(rest));
        assert(forest_paths(q) == node_paths(q[0]).add(forest_paths(rest)));
        let r = walk_of(after_first(q));
        match q[0] {
            Node::File(_, c) => {
                assert(after_first(q) == rest);
                lemma_walk_multiset(rest);
                assert(walk_of(q).0 + walk_of(q).1 =~= seq![c] + (r.0 + r.1));
                assert(seq![c].to_multiset() =~= Multiset::singleton(c)) by {
                    assert(seq![c] =~= Seq::<Seq<char>>::empty().push(c));
                }
                assert((walk_of(q).0 + walk_of(q).1).to_multiset() =~= forest_paths(q));
            },
            Node::Dir(_, c, ch) => {
                lemma_forest_concat(rest, ch);
                assert(after_first(q) == rest + ch);
                assert(node_size(q[0]) == 1 + forest_size(ch));
                lemma_walk_multiset(rest + ch);
                lemma_forest_paths_concat(rest, ch);
                assert(walk_of(q).0 + walk_of(q).1 =~= r.0 + (seq![c] + r.1));
                assert(seq![c].to_multiset() =~= Multiset::singleton(c)) by {
                    assert(seq![c] =~= Seq::<Seq<char>>::empty().push(c));
                }
                assert(node_paths(q[0]) == Multiset::singleton(c).add(forest_paths(ch)));
                let m0 = r.0.to_multiset();
                let m1 = r.1.to_multiset();
                assert((r.0 + r.1).to_multiset() == m0.add(m1));
                assert((seq![c] + r.1).to_multiset() == Multiset::singleton(c).add(m1));
                assert((r.0 + (seq![c] + r.1)).to_multiset() == m0.add(Multiset::singleton(c).add(m1)));
                assert(m0.add(m1) == forest_paths(rest).add(forest_paths(ch)));
                let lhs = m0.add(Multiset::singleton(c).add(m1));
                let rhs = Multiset::singleton(c).add(forest_paths(ch)).add(forest_paths(rest));
                assert forall|x: Seq<char>| lhs.count(x) == rhs.count(x) by {
                    assert(m0.add(m1).count(x) == forest_paths(rest).add(forest_paths(ch)).count(x));
                }
                assert(lhs =~= rhs);
                assert((walk_of(q).0 + walk_of(q).1).to_multiset() =~= forest_paths(q));
            },
        }
    }
}

/// A walk over a finite tree records each canonical path of the tree as many
/// times as the tree holds it, files and directories together. So where the
/// tree's canonical paths are distinct and none is the root's, the walk
/// records no path twice and never the root.
pub proof fn lemma_walk_paths(q: Seq<Node>, root: Seq<char>)
    requires
        forall|p: Seq<char>| #[trigger] forest_paths(q).count(p) <= 1,
        forest_paths(q).count(root) == 0,
    ensures
        (walk_of(q).0 + walk_of(q).1).to_multiset() == forest_paths(q),
        (walk_of(q).0 + walk_of(q).1).no_duplicates(),
        !walk_of(q).0.contains(root),
        !walk_of(q).1.contains(root),
{
    broadcast use vstd::seq_lib::group_to_multiset_ensures;
    lemma_walk_multiset(q);
    let all = walk_of(q).0 + walk_of(q).1;
    assert forall|x: Seq<char>| all.to_multiset().contains(x) implies all.to_multiset().count(x) == 1 by {
        assert(forest_paths(q).count(x) <= 1);
    }
    all.lemma_multiset_has_no_duplicates_conv();
    if walk_of(q).0.contains(root) {
        let i = choose|i: int| 0 <= i < walk_of(q).0.len() && walk_of(q).0[i] == root;
        assert(all[i] == root);
        assert(all.contains(root));
    }
    if walk_of(q).1.contains(root) {
        let i = choose|i: int| 0 <= i < walk_of(q).1.len() && walk_of(q).1[i] == root;
        assert(all[walk_of(q).0.len() + i] == root);
        assert(all.contains(root));
    }
}

/// One turn of a walk that its caller drives over a tree. While the walk's
/// pending raw entries are those of the queue `q`, handing out the first
/// ([`Walk::next_entry`]) and recording what the tree holds there
/// ([`Walk::record`]: a file with its canonical path, or a directory with its
/// canonical path and the raw paths of its entries) leaves pending the raw
/// entries of `after_first(q)`, and keeps what the walk has found followed by
/// what a walk of the rest records. Started on the raw entries of the root's
/// entries and turned until nothing is pending, a walk thus ends having found
/// `walk_of` of them.
pub proof fn lemma_walk_turn(before: Walk, handed: Walk, after: Walk, q: Seq<Node>)
    requires
        q.len() > 0,
        before.pending() == raws(q),
        handed.found_files() == before.found_files(),
        handed.found_directories() == before.found_directories(),
        handed.pending() == before.pending().drop_first(),
        match q[0] {
            Node::File(_, c) => after.found_files() == handed.found_files().push(c)
                && after.found_directories() == handed.found_directories()
                && after.pending() == handed.pending(),
            Node::Dir(_, c, ch) => after.found_files() == handed.found_files()
                && after.found_directories() == handed.found_directories().push(c)
                && after.pending() == handed.pending() + raws(ch),
        },
    ensures
        after.pending() == raws(after_first(q)),
        after.found_files() + walk_of(after_first(q)).0 == before.found_files() + walk_of(q).0,
        after.found_directories() + walk_of(after_first(q)).1 == before.found_directories() + walk_of(q).1,
{
    let rest = q.subrange(1, q.len() as int);
    assert(raws(q).drop_first() =~= raws(rest));
    let r = walk_of(after_first(q));
    match q[0] {
        Node::File(_, c) => {
            assert(after_first(q) == rest);
            assert(after.found_files() + r.0 =~= before.found_files() + (seq![c] + r.0));
        },
        Node::Dir(_, c, ch) => {
            assert(raws(rest) + raws(ch) =~= raws(rest + ch));
            assert(after.found_directories() + r.1 =~= before.found_directories() + (seq![c] + r.1));
        },
    }
}

} // verus!
