//! The confined tree itself and its stateless operations: create a
//! directory, remove an entry, move an entry.
//!
//! The tree is modelled as a flat store of nodes, each holding the full
//! resolved segment path (relative to the sandbox root) and its kind.
//! The root itself is implicit: the empty path is always a directory and
//! never stored.  Well-formedness demands distinct paths and that every
//! stored node's parent is the root or a stored directory.

use vstd::pervasive::VecAdditionalExecFns;
use vstd::prelude::*;

use crate::errors::FsError;
use crate::path::{is_descendant_of, path_eq, resolve, segs_view, ConfinedPath};

verus! {

/// The kind of a stored node; a file carries its committed content.
pub enum NodeKind {
    Dir,
    File(Vec<u8>),
}

/// One entry of the confined tree.
pub struct Node {
    pub segs: Vec<Vec<u8>>,
    pub kind: NodeKind,
}

/// The mathematical kind of a node.
pub ghost enum KindV {
    Dir,
    File(Seq<u8>),
}

/// The mathematical view of one node.
pub ghost struct NodeV {
    pub path: Seq<Seq<u8>>,
    pub kind: KindV,
}

impl View for Node {
    type V = NodeV;

    open spec fn view(&self) -> NodeV {
        NodeV {
            path: segs_view(self.segs@),
            kind: match self.kind {
                NodeKind::Dir => KindV::Dir,
                NodeKind::File(ref d) => KindV::File(d@),
            },
        }
    }
}

/// The committed bytes of a file kind; a directory has none.
pub open spec fn data_of(k: KindV) -> Seq<u8> {
    match k {
        KindV::File(d) => d,
        KindV::Dir => Seq::<u8>::empty(),
    }
}

/// Some stored node carries path `p`.
pub open spec fn has_path(ns: Seq<NodeV>, p: Seq<Seq<u8>>) -> bool {
    exists|i: int| 0 <= i < ns.len() && #[trigger] ns[i].path == p
}

/// The index of the node carrying `p` (unique in a well-formed tree).
pub open spec fn idx_of(ns: Seq<NodeV>, p: Seq<Seq<u8>>) -> int {
    choose|i: int| 0 <= i < ns.len() && #[trigger] ns[i].path == p
}

/// The node carrying `p`.
pub open spec fn node_at(ns: Seq<NodeV>, p: Seq<Seq<u8>>) -> NodeV {
    ns[idx_of(ns, p)]
}

/// `p` names a directory: the implicit root, or a stored `Dir` node.
pub open spec fn dir_exists(ns: Seq<NodeV>, p: Seq<Seq<u8>>) -> bool {
    ||| p.len() == 0
    ||| (has_path(ns, p) && node_at(ns, p).kind is Dir)
}

/// `p` names a stored file.
pub open spec fn file_exists(ns: Seq<NodeV>, p: Seq<Seq<u8>>) -> bool {
    has_path(ns, p) && node_at(ns, p).kind is File
}

/// The committed content of the file at `p`.
pub open spec fn file_data(ns: Seq<NodeV>, p: Seq<Seq<u8>>) -> Seq<u8> {
    data_of(node_at(ns, p).kind)
}

/// The directory `d` has at least one immediate child.
pub open spec fn has_child(ns: Seq<NodeV>, d: Seq<Seq<u8>>) -> bool {
    exists|i: int|
        0 <= i < ns.len() && (#[trigger] ns[i].path).len() == d.len() + 1 && ns[i].path.take(
            d.len() as int,
        ) == d
}

/// All stored paths are distinct.
pub open spec fn distinct_paths(ns: Seq<NodeV>) -> bool {
    forall|i: int, j: int|
        0 <= i < j < ns.len() ==> (#[trigger] ns[i].path) != (#[trigger] ns[j].path)
}

/// Well-formedness of the tree: no node carries the empty (root) path,
/// paths are distinct, and every node's parent is the root or a stored
/// directory.
pub open spec fn wf_nodes(ns: Seq<NodeV>) -> bool {
    &&& distinct_paths(ns)
    &&& forall|i: int| 0 <= i < ns.len() ==> (#[trigger] ns[i].path).len() > 0
    &&& forall|i: int| 0 <= i < ns.len() ==> dir_exists(ns, (#[trigger] ns[i].path).drop_last())
}

/// In a distinct tree, the chosen index of a stored path is its only one.
pub proof fn lemma_node_at(ns: Seq<NodeV>, i: int)
    requires
        distinct_paths(ns),
        0 <= i < ns.len(),
    ensures
        idx_of(ns, ns[i].path) == i,
        node_at(ns, ns[i].path) == ns[i],
        has_path(ns, ns[i].path),
{
    assert(ns[i].path == ns[i].path);
    let j = idx_of(ns, ns[i].path);
    if j != i {
        assert(ns[i].path != ns[j].path);
    }
}

/// Frame facts of appending a fresh node.
pub proof fn lemma_push_props(ns: Seq<NodeV>, n: NodeV)
    requires
        distinct_paths(ns),
        !has_path(ns, n.path),
    ensures
        distinct_paths(ns.push(n)),
        has_path(ns.push(n), n.path),
        node_at(ns.push(n), n.path) == n,
        forall|q: Seq<Seq<u8>>| q != n.path ==> has_path(ns.push(n), q) == has_path(ns, q),
        forall|q: Seq<Seq<u8>>|
            q != n.path && has_path(ns, q) ==> node_at(ns.push(n), q) == node_at(ns, q),
{
    let ns1 = ns.push(n);
    assert forall|i: int, j: int|
        0 <= i < j < ns1.len() implies (#[trigger] ns1[i].path) != (#[trigger] ns1[j].path) by {
        if j == ns.len() {
            assert(ns1[j] == n);
            if ns1[i].path == n.path {
                lemma_node_at(ns, i);
            }
        }
    }
    assert(ns1[ns.len() as int] == n);
    assert(has_path(ns1, n.path));
    lemma_node_at(ns1, ns.len() as int);
    assert forall|q: Seq<Seq<u8>>| q != n.path implies has_path(ns1, q) == has_path(ns, q) by {
        if has_path(ns1, q) {
            let i = idx_of(ns1, q);
            assert(0 <= i < ns1.len() && ns1[i].path == q);
            assert(i < ns.len());
            assert(ns[i].path == q);
        }
        if has_path(ns, q) {
            let i = idx_of(ns, q);
            assert(ns1[i].path == q);
        }
    }
    assert forall|q: Seq<Seq<u8>>|
        q != n.path && has_path(ns, q) implies node_at(ns1, q) == node_at(ns, q) by {
        let i = idx_of(ns, q);
        assert(0 <= i < ns.len() && ns[i].path == q);
        lemma_node_at(ns, i);
        assert(ns1[i].path == q);
        lemma_node_at(ns1, i);
    }
}

/// Frame facts of removing the node at index `i`.
pub proof fn lemma_remove_props(ns: Seq<NodeV>, i: int)
    requires
        distinct_paths(ns),
        0 <= i < ns.len(),
    ensures
        distinct_paths(ns.remove(i)),
        !has_path(ns.remove(i), ns[i].path),
        forall|q: Seq<Seq<u8>>| q != ns[i].path ==> has_path(ns.remove(i), q) == has_path(ns, q),
        forall|q: Seq<Seq<u8>>|
            q != ns[i].path && has_path(ns, q) ==> node_at(ns.remove(i), q) == node_at(ns, q),
{
    let ns1 = ns.remove(i);
    assert(ns1.len() == ns.len() - 1);
    assert forall|k: int| 0 <= k < ns1.len() implies #[trigger] ns1[k] == ns[if k < i {
        k
    } else {
        k + 1
    }] by {}
    assert forall|k: int, j: int|
        0 <= k < j < ns1.len() implies (#[trigger] ns1[k].path) != (#[trigger] ns1[j].path) by {
        let k0 = if k < i { k } else { k + 1 };
        let j0 = if j < i { j } else { j + 1 };
        assert(ns1[k] == ns[k0] && ns1[j] == ns[j0]);
        assert(k0 < j0);
    }
    if has_path(ns1, ns[i].path) {
        let k = idx_of(ns1, ns[i].path);
        let k0 = if k < i { k } else { k + 1 };
        assert(ns1[k] == ns[k0]);
        assert(k0 != i);
        assert(ns[k0].path != ns[i].path);
    }
    assert forall|q: Seq<Seq<u8>>| q != ns[i].path implies has_path(ns1, q) == has_path(ns, q) by {
        if has_path(ns1, q) {
            let k = idx_of(ns1, q);
            let k0 = if k < i { k } else { k + 1 };
            assert(ns1[k] == ns[k0]);
            assert(ns[k0].path == q);
        }
        if has_path(ns, q) {
            let k0 = idx_of(ns, q);
            assert(0 <= k0 < ns.len() && ns[k0].path == q);
            assert(k0 != i);
            let k = if k0 < i { k0 } else { k0 - 1 };
            assert(ns1[k] == ns[k0]);
            assert(ns1[k].path == q);
        }
    }
    assert forall|q: Seq<Seq<u8>>|
        q != ns[i].path && has_path(ns, q) implies node_at(ns1, q) == node_at(ns, q) by {
        let k0 = idx_of(ns, q);
        assert(0 <= k0 < ns.len() && ns[k0].path == q);
        lemma_node_at(ns, k0);
        assert(k0 != i);
        let k = if k0 < i { k0 } else { k0 - 1 };
        assert(ns1[k] == ns[k0]);
        assert(ns1[k].path == q);
        lemma_node_at(ns1, k);
    }
}

/// The path of a node after relocating the subtree at `oldp` to `newp`:
/// `newp` followed by the node's suffix below `oldp`.
pub open spec fn move_path(p: Seq<Seq<u8>>, oldp: Seq<Seq<u8>>, newp: Seq<Seq<u8>>) -> Seq<
    Seq<u8>,
> {
    newp + p.skip(oldp.len() as int)
}

/// The whole tree after relocating the subtree at `oldp` to `newp`:
/// every node at or below `oldp` is rewritten, every other node is left
/// exactly as it was.
pub open spec fn moved_view(ns: Seq<NodeV>, oldp: Seq<Seq<u8>>, newp: Seq<Seq<u8>>) -> Seq<
    NodeV,
> {
    Seq::new(
        ns.len(),
        |i: int|
            if is_descendant_of(ns[i].path, oldp) {
                NodeV { path: move_path(ns[i].path, oldp, newp), kind: ns[i].kind }
            } else {
                ns[i]
            },
    )
}

/// The exact outcome `move_entry` owes, in the order the checks are made.
pub open spec fn move_outcome(ns: Seq<NodeV>, oldp: Seq<Seq<u8>>, newp: Seq<Seq<u8>>) -> Result<
    (),
    FsError,
> {
    if oldp.len() == 0 {
        Err(FsError::InvalidPath)
    } else if !has_path(ns, oldp) {
        Err(FsError::NotFound)
    } else if newp.len() == 0 || has_path(ns, newp) {
        Err(FsError::AlreadyExists)
    } else if is_descendant_of(newp, oldp) {
        Err(FsError::InvalidPath)
    } else if newp.drop_last().len() > 0 && !has_path(ns, newp.drop_last()) {
        Err(FsError::NotFound)
    } else if !dir_exists(ns, newp.drop_last()) {
        Err(FsError::NotADirectory)
    } else {
        Ok(())
    }
}

/// In a well-formed tree, every non-empty prefix of a stored path is
/// itself stored, and every proper one is a directory.
pub proof fn lemma_ancestor_has_path(ns: Seq<NodeV>, p: Seq<Seq<u8>>, k: int)
    requires
        wf_nodes(ns),
        has_path(ns, p),
        1 <= k <= p.len(),
    ensures
        has_path(ns, p.take(k)),
        k < p.len() ==> node_at(ns, p.take(k)).kind is Dir,
    decreases p.len() - k,
{
    if k == p.len() {
        assert(p.take(k) =~= p);
    } else {
        lemma_ancestor_has_path(ns, p, k + 1);
        let q1 = p.take(k + 1);
        let i = idx_of(ns, q1);
        assert(0 <= i < ns.len() && ns[i].path == q1);
        assert(dir_exists(ns, ns[i].path.drop_last()));
        assert(q1.drop_last() =~= p.take(k));
        assert(p.take(k).len() == k >= 1);
    }
}

/// No stored path lies at or below a path that is absent from a
/// well-formed tree.
pub proof fn lemma_no_desc_of_absent(ns: Seq<NodeV>, p: Seq<Seq<u8>>, q: Seq<Seq<u8>>)
    requires
        wf_nodes(ns),
        p.len() > 0,
        !has_path(ns, p),
        has_path(ns, q),
    ensures
        !is_descendant_of(q, p),
{
    if is_descendant_of(q, p) {
        lemma_ancestor_has_path(ns, q, p.len() as int);
        assert(q.take(p.len() as int) == p);
    }
}

/// What relocation does to a well-formed tree, under exactly the
/// conditions `move_outcome` accepts.
#[verifier::spinoff_prover]
#[verifier::rlimit(100)]
pub proof fn lemma_moved_props(ns: Seq<NodeV>, oldp: Seq<Seq<u8>>, newp: Seq<Seq<u8>>)
    requires
        wf_nodes(ns),
        oldp.len() > 0,
        newp.len() > 0,
        has_path(ns, oldp),
        !has_path(ns, newp),
        !is_descendant_of(newp, oldp),
        dir_exists(ns, newp.drop_last()),
    ensures
        wf_nodes(moved_view(ns, oldp, newp)),
        !has_path(moved_view(ns, oldp, newp), oldp),
        forall|q: Seq<Seq<u8>>|
            is_descendant_of(q, oldp) ==> !has_path(moved_view(ns, oldp, newp), q),
        has_path(moved_view(ns, oldp, newp), newp),
        node_at(moved_view(ns, oldp, newp), newp).kind == node_at(ns, oldp).kind,
        forall|q: Seq<Seq<u8>>|
            !is_descendant_of(q, oldp) && !is_descendant_of(q, newp) ==> has_path(
                moved_view(ns, oldp, newp),
                q,
            ) == has_path(ns, q),
        forall|q: Seq<Seq<u8>>|
            !is_descendant_of(q, oldp) && !is_descendant_of(q, newp) && has_path(ns, q)
                ==> node_at(moved_view(ns, oldp, newp), q) == node_at(ns, q),
        forall|q: Seq<Seq<u8>>|
            is_descendant_of(q, oldp) && has_path(ns, q) ==> has_path(
                moved_view(ns, oldp, newp),
                move_path(q, oldp, newp),
            ) && node_at(moved_view(ns, oldp, newp), move_path(q, oldp, newp)).kind == node_at(
                ns,
                q,
            ).kind,
{
    let ms = moved_view(ns, oldp, newp);
    // the two anchors are prefix-incomparable
    assert(!is_descendant_of(oldp, newp)) by {
        lemma_no_desc_of_absent(ns, newp, oldp);
    }
    // no stored path lies at or below newp
    assert forall|i: int| 0 <= i < ns.len() implies !is_descendant_of(
        #[trigger] ns[i].path,
        newp,
    ) by {
        lemma_node_at(ns, i);
        lemma_no_desc_of_absent(ns, newp, ns[i].path);
    }
    // every moved path lies at or below newp, and the rewrite is injective
    assert forall|i: int|
        0 <= i < ns.len() && is_descendant_of(ns[i].path, oldp) implies is_descendant_of(
        #[trigger] ms[i].path,
        newp,
    ) && ms[i].path.skip(newp.len() as int) == ns[i].path.skip(oldp.len() as int) by {
        let s = ns[i].path.skip(oldp.len() as int);
        assert((newp + s).take(newp.len() as int) =~= newp);
        assert((newp + s).skip(newp.len() as int) =~= s);
    }
    // moved paths reassemble their source
    assert forall|i: int|
        0 <= i < ns.len() && is_descendant_of(ns[i].path, oldp) implies oldp + ns[i].path.skip(
        oldp.len() as int,
    ) == #[trigger] ns[i].path by {
        assert(oldp + ns[i].path.skip(oldp.len() as int) =~= ns[i].path);
    }
    assert(distinct_paths(ms)) by {
        assert forall|i: int, j: int|
            0 <= i < j < ms.len() implies (#[trigger] ms[i].path) != (#[trigger] ms[j].path) by {
            let di = is_descendant_of(ns[i].path, oldp);
            let dj = is_descendant_of(ns[j].path, oldp);
            if di && dj {
                if ms[i].path == ms[j].path {
                    assert(ns[i].path.skip(oldp.len() as int) == ns[j].path.skip(
                        oldp.len() as int,
                    ));
                    assert(ns[i].path == ns[j].path);
                }
            } else if di && !dj {
                if ms[i].path == ms[j].path {
                    assert(is_descendant_of(ns[j].path, newp));
                }
            } else if !di && dj {
                if ms[i].path == ms[j].path {
                    assert(is_descendant_of(ns[i].path, newp));
                }
            }
        }
    }
    // nothing in the result lies at or below oldp
    assert forall|q: Seq<Seq<u8>>| is_descendant_of(q, oldp) implies !has_path(ms, q) by {
        if has_path(ms, q) {
            let i = idx_of(ms, q);
            assert(0 <= i < ms.len() && ms[i].path == q);
            if is_descendant_of(ns[i].path, oldp) {
                // q is at or below newp as well, so oldp and newp compare
                assert(is_descendant_of(q, newp));
                if oldp.len() <= newp.len() {
                    assert(newp.take(oldp.len() as int) =~= q.take(newp.len() as int).take(
                        oldp.len() as int,
                    ));
                    assert(newp.take(oldp.len() as int) =~= q.take(oldp.len() as int));
                    assert(is_descendant_of(newp, oldp));
                } else {
                    assert(oldp.take(newp.len() as int) =~= q.take(oldp.len() as int).take(
                        newp.len() as int,
                    ));
                    assert(oldp.take(newp.len() as int) =~= q.take(newp.len() as int));
                    assert(is_descendant_of(oldp, newp));
                }
            } else {
                assert(ns[i].path == q);
            }
        }
    }
    assert(is_descendant_of(oldp, oldp)) by {
        assert(oldp.take(oldp.len() as int) =~= oldp);
    }
    assert(!has_path(ms, oldp));
    // the frame: paths outside both subtrees are untouched
    assert forall|q: Seq<Seq<u8>>|
        !is_descendant_of(q, oldp) && !is_descendant_of(q, newp) implies has_path(ms, q)
        == has_path(ns, q) by {
        if has_path(ms, q) {
            let i = idx_of(ms, q);
            assert(0 <= i < ms.len() && ms[i].path == q);
            if is_descendant_of(ns[i].path, oldp) {
                assert(is_descendant_of(ms[i].path, newp));
            } else {
                assert(ns[i].path == q);
                lemma_node_at(ns, i);
            }
        }
        if has_path(ns, q) {
            let i = idx_of(ns, q);
            assert(0 <= i < ns.len() && ns[i].path == q);
            assert(ms[i] == ns[i]);
            assert(has_path(ms, q));
        }
    }
    assert forall|q: Seq<Seq<u8>>|
        !is_descendant_of(q, oldp) && !is_descendant_of(q, newp) && has_path(ns, q) implies node_at(
        ms,
        q,
    ) == node_at(ns, q) by {
        let i = idx_of(ns, q);
        assert(0 <= i < ns.len() && ns[i].path == q);
        lemma_node_at(ns, i);
        assert(ms[i] == ns[i]);
        lemma_node_at(ms, i);
    }
    // the moved subtree arrives intact
    assert forall|q: Seq<Seq<u8>>|
        is_descendant_of(q, oldp) && has_path(ns, q) implies has_path(
        ms,
        move_path(q, oldp, newp),
    ) && node_at(ms, move_path(q, oldp, newp)).kind == node_at(ns, q).kind by {
        let i = idx_of(ns, q);
        assert(0 <= i < ns.len() && ns[i].path == q);
        lemma_node_at(ns, i);
        assert(ms[i].path == move_path(q, oldp, newp));
        lemma_node_at(ms, i);
    }
    assert(move_path(oldp, oldp, newp) =~= newp);
    assert(has_path(ms, newp) && node_at(ms, newp).kind == node_at(ns, oldp).kind);
    // parent closure of the result
    assert forall|i: int| 0 <= i < ms.len() implies dir_exists(
        ms,
        (#[trigger] ms[i].path).drop_last(),
    ) by {
        if is_descendant_of(ns[i].path, oldp) {
            let s = ns[i].path.skip(oldp.len() as int);
            if s.len() == 0 {
                assert(ms[i].path =~= newp);
                let np = newp.drop_last();
                assert(ms[i].path.drop_last() == np);
                if np.len() > 0 {
                    assert(has_path(ns, np) && node_at(ns, np).kind is Dir);
                    assert(!is_descendant_of(np, oldp)) by {
                        if is_descendant_of(np, oldp) {
                            assert(newp.take(oldp.len() as int) =~= np.take(oldp.len() as int));
                            assert(is_descendant_of(newp, oldp));
                        }
                    }
                    assert(!is_descendant_of(np, newp));
                    assert(node_at(ms, np) == node_at(ns, np));
                }
            } else {
                let par = ns[i].path.drop_last();
                assert(par.len() == ns[i].path.len() - 1 >= oldp.len());
                assert(is_descendant_of(par, oldp)) by {
                    assert(par.take(oldp.len() as int) =~= ns[i].path.take(oldp.len() as int));
                }
                lemma_node_at(ns, i);
                assert(dir_exists(ns, par));
                assert(has_path(ns, par) && node_at(ns, par).kind is Dir);
                assert(move_path(par, oldp, newp) =~= ms[i].path.drop_last());
                assert(has_path(ms, ms[i].path.drop_last()) && node_at(
                    ms,
                    ms[i].path.drop_last(),
                ).kind is Dir);
            }
        } else {
            let par = ns[i].path.drop_last();
            assert(dir_exists(ns, par));
            if par.len() > 0 {
                assert(!is_descendant_of(par, oldp)) by {
                    if is_descendant_of(par, oldp) {
                        assert(ns[i].path.take(oldp.len() as int) =~= par.take(oldp.len() as int));
                        assert(is_descendant_of(ns[i].path, oldp));
                    }
                }
                assert(!is_descendant_of(par, newp)) by {
                    lemma_no_desc_of_absent(ns, newp, par);
                }
                assert(node_at(ms, par) == node_at(ns, par));
                assert(dir_exists(ms, par));
            }
            assert(ms[i].path == ns[i].path);
        }
    }
    assert forall|i: int| 0 <= i < ms.len() implies (#[trigger] ms[i].path).len() > 0 by {}
}

/// Atomicity of relocation, stated over the tree model alone: when the
/// checks pass, the source path (and everything below it) disappears and
/// the target carries exactly the node that the source carried — kind
/// and file content alike.  When any check fails, `move_entry` leaves
/// the tree untouched (that is part of its own contract).
pub proof fn lemma_move_atomicity(ns: Seq<NodeV>, oldp: Seq<Seq<u8>>, newp: Seq<Seq<u8>>)
    requires
        wf_nodes(ns),
        move_outcome(ns, oldp, newp) is Ok,
    ensures
        wf_nodes(moved_view(ns, oldp, newp)),
        !has_path(moved_view(ns, oldp, newp), oldp),
        has_path(moved_view(ns, oldp, newp), newp),
        node_at(moved_view(ns, oldp, newp), newp).kind == node_at(ns, oldp).kind,
        file_data(moved_view(ns, oldp, newp), newp) == file_data(ns, oldp),
{
    lemma_moved_props(ns, oldp, newp);
}

/// True when `c` starts with all of `d`'s segments.
pub(crate) fn path_starts_with(c: &Vec<Vec<u8>>, d: &Vec<Vec<u8>>) -> (r: bool)
    ensures
        r == is_descendant_of(segs_view(c@), segs_view(d@)),
{
    if c.len() < d.len() {
        return false;
    }
    let n: usize = d.len();
    let mut k: usize = 0;
    while k < n
        invariant
            k <= n,
            n == d@.len() <= c@.len(),
            forall|m: int| 0 <= m < k ==> c@[m]@ == d@[m]@,
        decreases n - k,
    {
        if !crate::path::seg_eq(&c[k], &d[k]) {
            assert(segs_view(c@).take(n as int)[k as int] != segs_view(d@)[k as int]);
            return false;
        }
        k += 1;
    }
    assert(segs_view(c@).take(n as int) =~= segs_view(d@));
    true
}

/// The first `k` segments of `v`, as an owned path.
pub(crate) fn prefix_of(v: &Vec<Vec<u8>>, k: usize) -> (r: Vec<Vec<u8>>)
    requires
        k <= v@.len(),
    ensures
        segs_view(r@) == segs_view(v@).take(k as int),
{
    let mut out: Vec<Vec<u8>> = Vec::new();
    let mut m: usize = 0;
    while m < k
        invariant
            m <= k <= v@.len(),
            segs_view(out@) == segs_view(v@).take(m as int),
        decreases k - m,
    {
        let ghost ov = out@;
        out.push(v[m].clone());
        proof {
            crate::path::lemma_segs_view_push(ov, v@[m as int]);
            assert(segs_view(v@).take(m + 1 as int) =~= segs_view(v@).take(m as int).push(
                segs_view(v@)[m as int],
            ));
        }
        m += 1;
    }
    out
}

/// A full copy of a segment path.
pub(crate) fn clone_path(v: &Vec<Vec<u8>>) -> (r: Vec<Vec<u8>>)
    ensures
        segs_view(r@) == segs_view(v@),
{
    let r = prefix_of(v, v.len());
    assert(segs_view(v@).take(v@.len() as int) =~= segs_view(v@));
    r
}

/// The exact outcome `create_dir` owes, in the order the checks are made.
pub open spec fn create_dir_outcome(ns: Seq<NodeV>, p: Seq<Seq<u8>>) -> Result<(), FsError> {
    if p.len() == 0 || has_path(ns, p) {
        Err(FsError::AlreadyExists)
    } else if p.drop_last().len() > 0 && !has_path(ns, p.drop_last()) {
        Err(FsError::NotFound)
    } else if !dir_exists(ns, p.drop_last()) {
        Err(FsError::NotADirectory)
    } else {
        Ok(())
    }
}

/// The exact outcome `remove_entry` owes, in the order the checks are
/// made.
pub open spec fn remove_outcome(ns: Seq<NodeV>, p: Seq<Seq<u8>>) -> Result<(), FsError> {
    if p.len() == 0 {
        Err(FsError::InvalidPath)
    } else if !has_path(ns, p) {
        Err(FsError::NotFound)
    } else if node_at(ns, p).kind is Dir && has_child(ns, p) {
        Err(FsError::NotEmpty)
    } else {
        Ok(())
    }
}

/// The tree after the file at `p` gets content `data`; every other node
/// is left exactly as it was.
pub open spec fn fs_set_file(ns: Seq<NodeV>, p: Seq<Seq<u8>>, data: Seq<u8>) -> Seq<NodeV> {
    Seq::new(
        ns.len(),
        |i: int|
            if ns[i].path == p {
                NodeV { path: p, kind: KindV::File(data) }
            } else {
                ns[i]
            },
    )
}

/// The exact outcome `open_for_write` owes, in the order the checks are
/// made.
pub open spec fn open_write_outcome(ns: Seq<NodeV>, p: Seq<Seq<u8>>) -> Result<(), FsError> {
    if p.len() == 0 {
        Err(FsError::NotADirectory)
    } else if has_path(ns, p) && node_at(ns, p).kind is Dir {
        Err(FsError::NotADirectory)
    } else if !has_path(ns, p) && p.drop_last().len() > 0 && !has_path(ns, p.drop_last()) {
        Err(FsError::NotFound)
    } else if !has_path(ns, p) && !dir_exists(ns, p.drop_last()) {
        Err(FsError::NotADirectory)
    } else {
        Ok(())
    }
}

/// The tree after `open_for_write` succeeds: the file truncated to
/// empty, or freshly created empty.
pub open spec fn open_write_result(ns: Seq<NodeV>, p: Seq<Seq<u8>>) -> Seq<NodeV> {
    if has_path(ns, p) {
        fs_set_file(ns, p, Seq::<u8>::empty())
    } else {
        ns.push(NodeV { path: p, kind: KindV::File(Seq::<u8>::empty()) })
    }
}

/// The exact outcome `open_for_read` owes.
pub open spec fn open_read_outcome(ns: Seq<NodeV>, p: Seq<Seq<u8>>) -> Result<(), FsError> {
    if p.len() == 0 {
        Err(FsError::NotADirectory)
    } else if !has_path(ns, p) {
        Err(FsError::NotFound)
    } else if node_at(ns, p).kind is Dir {
        Err(FsError::NotADirectory)
    } else {
        Ok(())
    }
}

/// Frame facts of replacing the content of the file at `p`.
pub proof fn lemma_set_file_props(ns: Seq<NodeV>, p: Seq<Seq<u8>>, data: Seq<u8>)
    requires
        wf_nodes(ns),
        file_exists(ns, p),
    ensures
        wf_nodes(fs_set_file(ns, p, data)),
        file_exists(fs_set_file(ns, p, data), p),
        file_data(fs_set_file(ns, p, data), p) == data,
        forall|q: Seq<Seq<u8>>|
            #[trigger] has_path(fs_set_file(ns, p, data), q) == has_path(ns, q),
        forall|q: Seq<Seq<u8>>|
            q != p && has_path(ns, q) ==> node_at(fs_set_file(ns, p, data), q) == node_at(ns, q),
{
    let fs1 = fs_set_file(ns, p, data);
    assert forall|i: int| 0 <= i < ns.len() implies (#[trigger] fs1[i].path) == ns[i].path by {}
    assert(distinct_paths(fs1));
    assert forall|q: Seq<Seq<u8>>| #[trigger]
        has_path(fs1, q) == has_path(ns, q) by {
        if has_path(fs1, q) {
            let i = idx_of(fs1, q);
            assert(ns[i].path == q);
        }
        if has_path(ns, q) {
            let i = idx_of(ns, q);
            assert(fs1[i].path == q);
        }
    }
    let i = idx_of(ns, p);
    assert(0 <= i < ns.len() && ns[i].path == p);
    lemma_node_at(ns, i);
    assert(fs1[i] == NodeV { path: p, kind: KindV::File(data) });
    lemma_node_at(fs1, i);
    assert forall|q: Seq<Seq<u8>>|
        q != p && has_path(ns, q) implies node_at(fs1, q) == node_at(ns, q) by {
        let k = idx_of(ns, q);
        assert(0 <= k < ns.len() && ns[k].path == q);
        lemma_node_at(ns, k);
        assert(fs1[k] == ns[k]);
        lemma_node_at(fs1, k);
    }
    assert forall|k: int| 0 <= k < fs1.len() implies dir_exists(
        fs1,
        (#[trigger] fs1[k].path).drop_last(),
    ) by {
        let par = ns[k].path.drop_last();
        assert(dir_exists(ns, par));
        if par.len() > 0 {
            assert(par != p) by {
                if par == p {
                    assert(node_at(ns, par).kind is Dir);
                }
            }
            assert(node_at(fs1, par) == node_at(ns, par));
        }
    }
}

/// A freshly created node below an existing directory keeps the tree
/// well formed.
pub proof fn lemma_push_node_wf(ns: Seq<NodeV>, n: NodeV)
    requires
        wf_nodes(ns),
        n.path.len() > 0,
        !has_path(ns, n.path),
        dir_exists(ns, n.path.drop_last()),
    ensures
        wf_nodes(ns.push(n)),
{
    lemma_push_props(ns, n);
    let ns1 = ns.push(n);
    assert forall|i: int| 0 <= i < ns1.len() implies dir_exists(
        ns1,
        (#[trigger] ns1[i].path).drop_last(),
    ) by {
        if i < ns.len() {
            assert(dir_exists(ns, ns[i].path.drop_last()));
            if ns[i].path.drop_last() != n.path && ns[i].path.drop_last().len() > 0 {
                assert(node_at(ns1, ns[i].path.drop_last()) == node_at(ns, ns[i].path.drop_last()));
            }
            if ns[i].path.drop_last() == n.path {
                assert(has_path(ns, n.path));
            }
        } else {
            assert(ns1[i] == n);
            if n.path.drop_last().len() > 0 {
                assert(n.path.drop_last() != n.path);
                assert(node_at(ns1, n.path.drop_last()) == node_at(ns, n.path.drop_last()));
            }
        }
    }
}

/// Appends all of `src` to `dst`.
pub(crate) fn append_bytes(dst: &mut Vec<u8>, src: &Vec<u8>)
    ensures
        final(dst)@ == old(dst)@ + src@,
{
    let n: usize = src.len();
    let mut i: usize = 0;
    while i < n
        invariant
            i <= n,
            n == src@.len(),
            dst@ == old(dst)@ + src@.take(i as int),
        decreases n - i,
    {
        dst.push(src[i]);
        assert(old(dst)@ + src@.take(i as int) + seq![src@[i as int]] =~= old(dst)@ + src@.take(
            i + 1 as int,
        ));
        i += 1;
    }
    assert(old(dst)@ + src@.take(n as int) =~= old(dst)@ + src@);
}

/// The confined tree, bound to the sandbox root it was configured with.
pub struct Sandbox {
    root: Vec<Vec<u8>>,
    nodes: Vec<Node>,
}

impl View for Sandbox {
    type V = Seq<NodeV>;

    closed spec fn view(&self) -> Seq<NodeV> {
        Seq::new(self.nodes@.len(), |i: int| self.nodes@[i]@)
    }
}

impl Sandbox {
    /// The absolute segments of the sandbox root.
    pub closed spec fn root_spec(&self) -> Seq<Seq<u8>> {
        segs_view(self.root@)
    }

    pub open spec fn wf(&self) -> bool {
        wf_nodes(self@)
    }

    /// Configures an empty confined tree under the given root path.
    /// The root raw path goes through the same validation as every
    /// contract-supplied path.
    pub fn new(root_raw: &Vec<u8>) -> (r: Result<Sandbox, FsError>)
        ensures
            match r {
                Ok(s) => {
                    &&& s.wf()
                    &&& s@ == Seq::<NodeV>::empty()
                    &&& crate::path::resolve_spec(root_raw@) == Ok::<Seq<Seq<u8>>, FsError>(
                        s.root_spec(),
                    )
                },
                Err(e) => crate::path::resolve_spec(root_raw@) == Err::<Seq<Seq<u8>>, FsError>(e),
            },
    {
        match resolve(root_raw) {
            Ok(p) => {
                let s = Sandbox { root: p.into_segments(), nodes: Vec::new() };
                assert(s@ =~= Seq::<NodeV>::empty());
                Ok(s)
            },
            Err(e) => Err(e),
        }
    }

    /// How many nodes the tree stores.
    pub(crate) fn node_count(&self) -> (n: usize)
        ensures
            n == self@.len(),
    {
        self.nodes.len()
    }

    /// Whether the node at index `i` is a directory.
    pub(crate) fn node_is_dir(&self, i: usize) -> (r: bool)
        requires
            i < self@.len(),
        ensures
            r == (self@[i as int].kind is Dir),
    {
        assert(self@[i as int] == self.nodes@[i as int]@);
        match &self.nodes[i].kind {
            NodeKind::Dir => true,
            NodeKind::File(_) => false,
        }
    }

    /// The segment path of the node at index `i`.
    pub(crate) fn node_segs(&self, i: usize) -> (r: &Vec<Vec<u8>>)
        requires
            i < self@.len(),
        ensures
            segs_view(r@) == self@[i as int].path,
    {
        assert(self@[i as int] == self.nodes@[i as int]@);
        &self.nodes[i].segs
    }

    /// Looks the path up in the store.
    pub(crate) fn find_node(&self, p: &Vec<Vec<u8>>) -> (r: Option<usize>)
        ensures
            match r {
                Some(i) => {
                    &&& i < self@.len()
                    &&& self@[i as int].path == segs_view(p@)
                    &&& has_path(self@, segs_view(p@))
                },
                None => !has_path(self@, segs_view(p@)),
            },
    {
        let n: usize = self.nodes.len();
        let mut i: usize = 0;
        while i < n
            invariant
                i <= n,
                n == self.nodes@.len(),
                self@.len() == n,
                forall|j: int| 0 <= j < i ==> (#[trigger] self@[j].path) != segs_view(p@),
            decreases n - i,
        {
            assert(self@[i as int] == self.nodes@[i as int]@);
            if path_eq(&self.nodes[i].segs, p) {
                return Some(i);
            }
            i += 1;
        }
        assert(!has_path(self@, segs_view(p@)));
        None
    }

    /// True when the directory at `p` (segments) has an immediate child.
    fn has_child_exec(&self, p: &Vec<Vec<u8>>) -> (r: bool)
        ensures
            r == has_child(self@, segs_view(p@)),
    {
        let n: usize = self.nodes.len();
        let d: usize = p.len();
        assert(segs_view(p@).len() == d);
        let mut i: usize = 0;
        while i < n
            invariant
                i <= n,
                n == self.nodes@.len(),
                self@.len() == n,
                d == segs_view(p@).len(),
                forall|j: int|
                    0 <= j < i ==> !((#[trigger] self@[j].path).len() == d + 1 && self@[j].path.take(
                        d as int,
                    ) == segs_view(p@)),
            decreases n - i,
        {
            assert(self@[i as int] == self.nodes@[i as int]@);
            let node_segs = &self.nodes[i].segs;
            if node_segs.len() > 0 && node_segs.len() - 1 == d {
                let mut k: usize = 0;
                let mut pref: bool = true;
                while k < d
                    invariant
                        k <= d,
                        d == p@.len(),
                        d + 1 == node_segs@.len(),
                        pref == (forall|m: int| 0 <= m < k ==> node_segs@[m]@ == p@[m]@),
                    decreases d - k,
                {
                    if !crate::path::seg_eq(&node_segs[k], &p[k]) {
                        pref = false;
                        assert(!(forall|m: int| 0 <= m < k + 1 ==> node_segs@[m]@ == p@[m]@));
                        k = d;
                    } else {
                        if pref {
                            assert(forall|m: int| 0 <= m < k + 1 ==> node_segs@[m]@ == p@[m]@);
                        }
                        k += 1;
                    }
                }
                if pref {
                    assert(segs_view(node_segs@).take(d as int) =~= segs_view(p@));
                    assert(self@[i as int].path == segs_view(node_segs@));
                    assert(has_child(self@, segs_view(p@)));
                    return true;
                } else {
                    assert(!(segs_view(node_segs@).take(d as int) =~= segs_view(p@))) by {
                        let m = choose|m: int|
                            !(0 <= m < d ==> node_segs@[m]@ == p@[m]@) && 0 <= m < d;
                        assert(segs_view(node_segs@).take(d as int)[m] == node_segs@[m]@);
                    }
                }
            }
            i += 1;
        }
        assert(!has_child(self@, segs_view(p@)));
        false
    }

    /// Moves the entry at `oldp` — together with everything below it —
    /// to `newp`.  All checks are made before the first mutation, so an
    /// error leaves the tree exactly as it was, and on success no
    /// half-moved state is ever stored: the whole rewrite is the single
    /// observable step.
    pub fn move_entry_at(&mut self, oldp: &ConfinedPath, newp: &ConfinedPath) -> (r: Result<
        (),
        FsError,
    >)
        requires
            old(self).wf(),
        ensures
            final(self).wf(),
            final(self).root_spec() == old(self).root_spec(),
            r == move_outcome(old(self)@, oldp@, newp@),
            r is Err ==> final(self)@ == old(self)@,
            r is Ok ==> {
                &&& final(self)@ == moved_view(old(self)@, oldp@, newp@)
                &&& !has_path(final(self)@, oldp@)
                &&& forall|q: Seq<Seq<u8>>|
                    is_descendant_of(q, oldp@) ==> !has_path(final(self)@, q)
                &&& has_path(final(self)@, newp@)
                &&& node_at(final(self)@, newp@).kind == node_at(old(self)@, oldp@).kind
                &&& forall|q: Seq<Seq<u8>>|
                    !is_descendant_of(q, oldp@) && !is_descendant_of(q, newp@) ==> has_path(
                        final(self)@,
                        q,
                    ) == has_path(old(self)@, q)
                &&& forall|q: Seq<Seq<u8>>|
                    !is_descendant_of(q, oldp@) && !is_descendant_of(q, newp@) && has_path(
                        old(self)@,
                        q,
                    ) ==> node_at(final(self)@, q) == node_at(old(self)@, q)
                &&& forall|q: Seq<Seq<u8>>|
                    is_descendant_of(q, oldp@) && has_path(old(self)@, q) ==> has_path(
                        final(self)@,
                        move_path(q, oldp@, newp@),
                    ) && node_at(final(self)@, move_path(q, oldp@, newp@)).kind == node_at(
                        old(self)@,
                        q,
                    ).kind
            },
    {
        let old_segs = oldp.segments();
        let new_segs = newp.segments();
        if old_segs.len() == 0 {
            return Err(FsError::InvalidPath);
        }
        assert(oldp@.len() > 0);
        if self.find_node(old_segs).is_none() {
            return Err(FsError::NotFound);
        }
        if new_segs.len() == 0 {
            assert(newp@.len() == 0);
            return Err(FsError::AlreadyExists);
        }
        assert(newp@.len() > 0);
        if self.find_node(new_segs).is_some() {
            return Err(FsError::AlreadyExists);
        }
        if path_starts_with(new_segs, old_segs) {
            return Err(FsError::InvalidPath);
        }
        let parent = prefix_of(new_segs, new_segs.len() - 1);
        assert(segs_view(parent@) == newp@.drop_last()) by {
            assert(newp@.take(newp@.len() - 1) =~= newp@.drop_last());
        }
        if parent.len() > 0 {
            match self.find_node(&parent) {
                None => {
                    return Err(FsError::NotFound);
                },
                Some(i) => {
                    proof {
                        lemma_node_at(self@, i as int);
                    }
                    assert(self@[i as int] == self.nodes@[i as int]@);
                    match &self.nodes[i].kind {
                        NodeKind::File(_) => {
                            assert(!dir_exists(self@, newp@.drop_last()));
                            return Err(FsError::NotADirectory);
                        },
                        NodeKind::Dir => {
                            assert(dir_exists(self@, newp@.drop_last()));
                        },
                    }
                },
            }
        } else {
            assert(dir_exists(self@, newp@.drop_last()));
        }
        assert(move_outcome(self@, oldp@, newp@) is Ok);
        let ghost ns0 = self@;
        let ghost mv = moved_view(ns0, oldp@, newp@);
        let n: usize = self.nodes.len();
        let old_len: usize = old_segs.len();
        let mut i: usize = 0;
        while i < n
            invariant
                i <= n,
                n == self.nodes@.len(),
                self@.len() == n,
                mv.len() == n,
                mv == moved_view(ns0, oldp@, newp@),
                old_len == oldp@.len(),
                segs_view(old_segs@) == oldp@,
                segs_view(new_segs@) == newp@,
                self.root_spec() == old(self).root_spec(),
                forall|j: int| 0 <= j < i ==> self@[j] == mv[j],
                forall|j: int| i <= j < n ==> self@[j] == ns0[j],
            decreases n - i,
        {
            assert(self@[i as int] == self.nodes@[i as int]@);
            if path_starts_with(&self.nodes[i].segs, old_segs) {
                assert(is_descendant_of(ns0[i as int].path, oldp@));
                let node_len: usize = self.nodes[i].segs.len();
                assert(node_len == ns0[i as int].path.len() >= old_len);
                let mut segs: Vec<Vec<u8>> = Vec::new();
                let mut k: usize = 0;
                while k < new_segs.len()
                    invariant
                        k <= new_segs@.len(),
                        segs_view(new_segs@) == newp@,
                        new_segs@.len() == newp@.len(),
                        segs_view(segs@) == newp@.take(k as int),
                    decreases new_segs@.len() - k,
                {
                    let ghost sv = segs@;
                    segs.push(new_segs[k].clone());
                    proof {
                        crate::path::lemma_segs_view_push(sv, new_segs@[k as int]);
                        assert(newp@.take(k + 1 as int) =~= newp@.take(k as int).push(
                            newp@[k as int],
                        ));
                    }
                    k += 1;
                }
                assert(segs_view(segs@) == newp@) by {
                    assert(newp@.take(newp@.len() as int) =~= newp@);
                }
                let mut k2: usize = old_len;
                while k2 < node_len
                    invariant
                        old_len <= k2 <= node_len,
                        i < n,
                        n == self.nodes@.len(),
                        self@.len() == n,
                        self@[i as int] == ns0[i as int],
                        node_len == ns0[i as int].path.len(),
                        old_len == oldp@.len(),
                        segs_view(self.nodes@[i as int].segs@) == ns0[i as int].path,
                        segs_view(segs@) == newp@ + ns0[i as int].path.skip(
                            old_len as int,
                        ).take(k2 - old_len),
                    decreases node_len - k2,
                {
                    let ghost sv = segs@;
                    segs.push(self.nodes[i].segs[k2].clone());
                    proof {
                        crate::path::lemma_segs_view_push(sv, self.nodes@[i as int].segs@[k2 as int]);
                        let suf = ns0[i as int].path.skip(old_len as int);
                        assert(suf.take(k2 + 1 - old_len) =~= suf.take(k2 - old_len).push(
                            ns0[i as int].path[k2 as int],
                        ));
                        assert((newp@ + suf.take(k2 - old_len)).push(ns0[i as int].path[k2 as int])
                            =~= newp@ + suf.take(k2 + 1 - old_len));
                    }
                    k2 += 1;
                }
                assert(segs_view(segs@) == move_path(ns0[i as int].path, oldp@, newp@)) by {
                    let suf = ns0[i as int].path.skip(old_len as int);
                    assert(suf.take(node_len - old_len) =~= suf);
                }
                let kind = match &self.nodes[i].kind {
                    NodeKind::Dir => NodeKind::Dir,
                    NodeKind::File(d) => NodeKind::File(d.clone()),
                };
                let node = Node { segs, kind };
                assert(node@ == mv[i as int]);
                self.nodes.set(i, node);
                assert(forall|j: int| 0 <= j < n ==> self@[j] == self.nodes@[j]@);
            } else {
                assert(!is_descendant_of(ns0[i as int].path, oldp@));
                assert(self@[i as int] == mv[i as int]);
            }
            i += 1;
        }
        assert(self@ =~= mv);
        proof {
            lemma_moved_props(ns0, oldp@, newp@);
        }
        Ok(())
    }

    /// Creates a directory at the confined path.
    ///
    /// Fails with `AlreadyExists` when the path is the root or already
    /// stored, `NotFound` when the parent directory is absent, and
    /// `NotADirectory` when the parent is a file; otherwise the new
    /// (empty) directory node is appended and nothing else changes.
    pub fn create_dir_at(&mut self, p: &ConfinedPath) -> (r: Result<(), FsError>)
        requires
            old(self).wf(),
        ensures
            final(self).wf(),
            final(self).root_spec() == old(self).root_spec(),
            match r {
                Ok(()) => {
                    &&& p@.len() > 0
                    &&& !has_path(old(self)@, p@)
                    &&& dir_exists(old(self)@, p@.drop_last())
                    &&& final(self)@ == old(self)@.push(NodeV { path: p@, kind: KindV::Dir })
                },
                Err(FsError::AlreadyExists) => {
                    &&& (p@.len() == 0 || has_path(old(self)@, p@))
                    &&& final(self)@ == old(self)@
                },
                Err(FsError::NotFound) => {
                    &&& p@.len() > 0
                    &&& !has_path(old(self)@, p@)
                    &&& !has_path(old(self)@, p@.drop_last())
                    &&& p@.drop_last().len() > 0
                    &&& final(self)@ == old(self)@
                },
                Err(FsError::NotADirectory) => {
                    &&& p@.len() > 0
                    &&& !has_path(old(self)@, p@)
                    &&& file_exists(old(self)@, p@.drop_last())
                    &&& final(self)@ == old(self)@
                },
                Err(_) => false,
            },
    {
        let segs = p.segments();
        if segs.len() == 0 {
            assert(p@.len() == 0);
            return Err(FsError::AlreadyExists);
        }
        assert(p@.len() > 0);
        if let Some(_) = self.find_node(segs) {
            return Err(FsError::AlreadyExists);
        }
        let mut parent: Vec<Vec<u8>> = Vec::new();
        let mut k: usize = 0;
        while k < segs.len() - 1
            invariant
                k <= segs@.len() - 1,
                segs@.len() == p@.len(),
                segs_view(segs@) == p@,
                segs_view(parent@) == p@.take(k as int),
            decreases segs@.len() - 1 - k,
        {
            let ghost pv = parent@;
            parent.push(segs[k].clone());
            proof {
                crate::path::lemma_segs_view_push(pv, segs@[k as int]);
                assert(p@.take(k + 1 as int) =~= p@.take(k as int).push(p@[k as int]));
            }
            k += 1;
        }
        assert(segs_view(parent@) == p@.drop_last()) by {
            assert(p@.take(p@.len() - 1) =~= p@.drop_last());
        }
        if parent.len() > 0 {
            match self.find_node(&parent) {
                None => {
                    return Err(FsError::NotFound);
                },
                Some(i) => {
                    let is_dir = match &self.nodes[i].kind {
                        NodeKind::Dir => true,
                        NodeKind::File(_) => false,
                    };
                    proof {
                        lemma_node_at(self@, i as int);
                    }
                    if !is_dir {
                        assert(self@[i as int] == self.nodes@[i as int]@);
                        assert(file_exists(self@, p@.drop_last()));
                        return Err(FsError::NotADirectory);
                    }
                    assert(self@[i as int] == self.nodes@[i as int]@);
                    assert(dir_exists(self@, p@.drop_last()));
                },
            }
        } else {
            assert(p@.drop_last().len() == 0);
            assert(dir_exists(self@, p@.drop_last()));
        }
        let ghost ns0 = self@;
        let ghost newv = NodeV { path: p@, kind: KindV::Dir };
        let mut own: Vec<Vec<u8>> = Vec::new();
        let mut k2: usize = 0;
        while k2 < segs.len()
            invariant
                k2 <= segs@.len(),
                segs_view(segs@) == p@,
                segs@.len() == p@.len(),
                segs_view(own@) == p@.take(k2 as int),
            decreases segs@.len() - k2,
        {
            let ghost ov = own@;
            own.push(segs[k2].clone());
            proof {
                crate::path::lemma_segs_view_push(ov, segs@[k2 as int]);
                assert(p@.take(k2 + 1 as int) =~= p@.take(k2 as int).push(p@[k2 as int]));
            }
            k2 += 1;
        }
        assert(segs_view(own@) == p@) by {
            assert(p@.take(p@.len() as int) =~= p@);
        }
        let node = Node { segs: own, kind: NodeKind::Dir };
        assert(node@ == newv);
        self.nodes.push(node);
        assert(self@ =~= ns0.push(newv));
        proof {
            lemma_push_props(ns0, newv);
            assert forall|i: int| 0 <= i < self@.len() implies dir_exists(
                self@,
                (#[trigger] self@[i].path).drop_last(),
            ) by {
                if i < ns0.len() {
                    assert(dir_exists(ns0, ns0[i].path.drop_last()));
                    if ns0[i].path.drop_last() != p@ && ns0[i].path.drop_last().len() > 0 {
                        assert(node_at(self@, ns0[i].path.drop_last()) == node_at(
                            ns0,
                            ns0[i].path.drop_last(),
                        ));
                    }
                    if ns0[i].path.drop_last() == p@ {
                        assert(has_path(ns0, p@));
                    }
                } else {
                    assert(self@[i] == newv);
                    if p@.drop_last().len() > 0 {
                        assert(node_at(self@, p@.drop_last()) == node_at(ns0, p@.drop_last()));
                    }
                }
            }
        }
        Ok(())
    }

    /// Removes the file or empty directory at the confined path.
    ///
    /// Fails with `InvalidPath` for the root itself, `NotFound` when no
    /// entry carries the path, and `NotEmpty` for a directory that still
    /// has children; otherwise exactly that node disappears.
    pub fn remove_entry_at(&mut self, p: &ConfinedPath) -> (r: Result<(), FsError>)
        requires
            old(self).wf(),
        ensures
            final(self).wf(),
            final(self).root_spec() == old(self).root_spec(),
            match r {
                Ok(()) => {
                    &&& p@.len() > 0
                    &&& has_path(old(self)@, p@)
                    &&& !(node_at(old(self)@, p@).kind is Dir && has_child(old(self)@, p@))
                    &&& final(self)@ == old(self)@.remove(idx_of(old(self)@, p@))
                    &&& !has_path(final(self)@, p@)
                    &&& forall|q: Seq<Seq<u8>>|
                        q != p@ ==> has_path(final(self)@, q) == has_path(old(self)@, q)
                    &&& forall|q: Seq<Seq<u8>>|
                        q != p@ && has_path(old(self)@, q) ==> node_at(final(self)@, q) == node_at(
                            old(self)@,
                            q,
                        )
                },
                Err(FsError::InvalidPath) => {
                    &&& p@.len() == 0
                    &&& final(self)@ == old(self)@
                },
                Err(FsError::NotFound) => {
                    &&& p@.len() > 0
                    &&& !has_path(old(self)@, p@)
                    &&& final(self)@ == old(self)@
                },
                Err(FsError::NotEmpty) => {
                    &&& p@.len() > 0
                    &&& has_path(old(self)@, p@)
                    &&& node_at(old(self)@, p@).kind is Dir
                    &&& has_child(old(self)@, p@)
                    &&& final(self)@ == old(self)@
                },
                Err(_) => false,
            },
    {
        self.remove_entry_segs(p.segments())
    }

    pub(crate) fn remove_entry_segs(&mut self, segs: &Vec<Vec<u8>>) -> (r: Result<(), FsError>)
        requires
            old(self).wf(),
        ensures
            final(self).wf(),
            final(self).root_spec() == old(self).root_spec(),
            match r {
                Ok(()) => {
                    &&& segs_view(segs@).len() > 0
                    &&& has_path(old(self)@, segs_view(segs@))
                    &&& !(node_at(old(self)@, segs_view(segs@)).kind is Dir && has_child(old(self)@, segs_view(segs@)))
                    &&& final(self)@ == old(self)@.remove(idx_of(old(self)@, segs_view(segs@)))
                    &&& !has_path(final(self)@, segs_view(segs@))
                    &&& forall|q: Seq<Seq<u8>>|
                        q != segs_view(segs@) ==> has_path(final(self)@, q) == has_path(old(self)@, q)
                    &&& forall|q: Seq<Seq<u8>>|
                        q != segs_view(segs@) && has_path(old(self)@, q) ==> node_at(final(self)@, q) == node_at(
                            old(self)@,
                            q,
                        )
                },
                Err(FsError::InvalidPath) => {
                    &&& segs_view(segs@).len() == 0
                    &&& final(self)@ == old(self)@
                },
                Err(FsError::NotFound) => {
                    &&& segs_view(segs@).len() > 0
                    &&& !has_path(old(self)@, segs_view(segs@))
                    &&& final(self)@ == old(self)@
                },
                Err(FsError::NotEmpty) => {
                    &&& segs_view(segs@).len() > 0
                    &&& has_path(old(self)@, segs_view(segs@))
                    &&& node_at(old(self)@, segs_view(segs@)).kind is Dir
                    &&& has_child(old(self)@, segs_view(segs@))
                    &&& final(self)@ == old(self)@
                },
                Err(_) => false,
            },
    {
        if segs.len() == 0 {
            assert(segs_view(segs@).len() == 0);
            return Err(FsError::InvalidPath);
        }
        assert(segs_view(segs@).len() > 0);
        let i = match self.find_node(segs) {
            None => {
                return Err(FsError::NotFound);
            },
            Some(i) => i,
        };
        proof {
            lemma_node_at(self@, i as int);
        }
        let is_dir = match &self.nodes[i].kind {
            NodeKind::Dir => true,
            NodeKind::File(_) => false,
        };
        assert(self@[i as int] == self.nodes@[i as int]@);
        if is_dir {
            if self.has_child_exec(segs) {
                assert(node_at(self@, segs_view(segs@)).kind is Dir);
                return Err(FsError::NotEmpty);
            }
        } else {
            assert(!(node_at(self@, segs_view(segs@)).kind is Dir));
        }
        let ghost ns0 = self@;
        self.nodes.remove(i);
        assert(self@ =~= ns0.remove(i as int));
        proof {
            lemma_remove_props(ns0, i as int);
            assert forall|k: int| 0 <= k < self@.len() implies dir_exists(
                self@,
                (#[trigger] self@[k].path).drop_last(),
            ) by {
                let k0 = if k < i as int {
                    k
                } else {
                    k + 1
                };
                assert(self@[k] == ns0.remove(i as int)[k]);
                assert(ns0.remove(i as int)[k] == ns0[k0]);
                let par = ns0[k0].path.drop_last();
                assert(dir_exists(ns0, par));
                if par.len() > 0 {
                    if par == segs_view(segs@) {
                        // the removed directory had no child, yet `k` would be one
                        assert(ns0[k0].path.len() == segs_view(segs@).len() + 1);
                        assert(ns0[k0].path.take(segs_view(segs@).len() as int) =~= par);
                        assert(has_child(ns0, segs_view(segs@)));
                        assert(false);
                    } else {
                        assert(node_at(self@, par) == node_at(ns0, par));
                    }
                }
            }
        }
        Ok(())
    }

    /// Opens the confined path for writing: an existing file is
    /// truncated to empty, an absent one is created empty under its
    /// (existing) parent directory.  The handle buffers writes until its
    /// own `flush`.
    pub fn open_for_write_at(&mut self, p: &ConfinedPath) -> (r: Result<
        crate::file::FileWriter,
        FsError,
    >)
        requires
            old(self).wf(),
        ensures
            final(self).wf(),
            final(self).root_spec() == old(self).root_spec(),
            match r {
                Ok(w) => {
                    &&& open_write_outcome(old(self)@, p@) is Ok
                    &&& final(self)@ == open_write_result(old(self)@, p@)
                    &&& w.path_spec() == p@
                    &&& w.pending_spec() == Seq::<u8>::empty()
                    &&& file_exists(final(self)@, p@)
                    &&& file_data(final(self)@, p@) == Seq::<u8>::empty()
                },
                Err(e) => {
                    &&& open_write_outcome(old(self)@, p@) == Err::<(), FsError>(e)
                    &&& final(self)@ == old(self)@
                },
            },
    {
        let segs = p.segments();
        if segs.len() == 0 {
            assert(p@.len() == 0);
            return Err(FsError::NotADirectory);
        }
        assert(p@.len() > 0);
        let ghost ns0 = self@;
        match self.find_node(segs) {
            Some(i) => {
                proof {
                    lemma_node_at(self@, i as int);
                }
                assert(self@[i as int] == self.nodes@[i as int]@);
                match &self.nodes[i].kind {
                    NodeKind::Dir => {
                        assert(node_at(self@, p@).kind is Dir);
                        return Err(FsError::NotADirectory);
                    },
                    NodeKind::File(_) => {},
                }
                assert(file_exists(ns0, p@));
                let segs_copy = clone_path(segs);
                let node = Node { segs: segs_copy, kind: NodeKind::File(Vec::new()) };
                self.nodes.set(i, node);
                assert(self@ =~= fs_set_file(ns0, p@, Seq::<u8>::empty())) by {
                    assert(forall|j: int| 0 <= j < self@.len() ==> self@[j] == self.nodes@[j]@);
                    assert(forall|j: int|
                        0 <= j < ns0.len() && j != i ==> ns0[j].path != p@ && self@[j] == ns0[j]);
                }
                proof {
                    lemma_set_file_props(ns0, p@, Seq::<u8>::empty());
                }
                let w = crate::file::FileWriter::new_for(clone_path(segs));
                assert(w.path_spec() == p@);
                Ok(w)
            },
            None => {
                let parent = prefix_of(segs, segs.len() - 1);
                assert(segs_view(parent@) == p@.drop_last()) by {
                    assert(p@.take(p@.len() - 1) =~= p@.drop_last());
                }
                if parent.len() > 0 {
                    match self.find_node(&parent) {
                        None => {
                            return Err(FsError::NotFound);
                        },
                        Some(i) => {
                            proof {
                                lemma_node_at(self@, i as int);
                            }
                            assert(self@[i as int] == self.nodes@[i as int]@);
                            match &self.nodes[i].kind {
                                NodeKind::File(_) => {
                                    assert(!dir_exists(self@, p@.drop_last()));
                                    return Err(FsError::NotADirectory);
                                },
                                NodeKind::Dir => {
                                    assert(dir_exists(self@, p@.drop_last()));
                                },
                            }
                        },
                    }
                } else {
                    assert(dir_exists(self@, p@.drop_last()));
                }
                let ghost newv = NodeV { path: p@, kind: KindV::File(Seq::<u8>::empty()) };
                let node = Node { segs: clone_path(segs), kind: NodeKind::File(Vec::new()) };
                assert(node@ == newv);
                self.nodes.push(node);
                assert(self@ =~= ns0.push(newv));
                proof {
                    lemma_push_node_wf(ns0, newv);
                    lemma_push_props(ns0, newv);
                }
                let w = crate::file::FileWriter::new_for(clone_path(segs));
                assert(w.path_spec() == p@);
                Ok(w)
            },
        }
    }

    /// Opens a raw contract-supplied path for writing.
    pub fn open_for_write(&mut self, raw: &Vec<u8>) -> (r: Result<crate::file::FileWriter, FsError>)
        requires
            old(self).wf(),
        ensures
            final(self).wf(),
            final(self).root_spec() == old(self).root_spec(),
            crate::path::resolve_spec(raw@) is Err ==> r is Err && r->Err_0
                == crate::path::resolve_spec(raw@)->Err_0 && final(self)@ == old(self)@,
            crate::path::resolve_spec(raw@) is Ok ==> {
                let p = crate::path::resolve_spec(raw@)->Ok_0;
                match r {
                    Ok(w) => {
                        &&& open_write_outcome(old(self)@, p) is Ok
                        &&& final(self)@ == open_write_result(old(self)@, p)
                        &&& w.path_spec() == p
                        &&& w.pending_spec() == Seq::<u8>::empty()
                    },
                    Err(e) => {
                        &&& open_write_outcome(old(self)@, p) == Err::<(), FsError>(e)
                        &&& final(self)@ == old(self)@
                    },
                }
            },
    {
        match resolve(raw) {
            Err(e) => Err(e),
            Ok(p) => self.open_for_write_at(&p),
        }
    }

    /// Commits buffered bytes by appending them to the committed content
    /// of the file at the given segment path.
    pub(crate) fn commit_bytes(&mut self, segs: &Vec<Vec<u8>>, pending: &Vec<u8>) -> (r: Result<
        (),
        FsError,
    >)
        requires
            old(self).wf(),
        ensures
            final(self).wf(),
            final(self).root_spec() == old(self).root_spec(),
            match r {
                Ok(()) => {
                    &&& file_exists(old(self)@, segs_view(segs@))
                    &&& final(self)@ == fs_set_file(
                        old(self)@,
                        segs_view(segs@),
                        file_data(old(self)@, segs_view(segs@)) + pending@,
                    )
                    &&& file_data(final(self)@, segs_view(segs@)) == file_data(
                        old(self)@,
                        segs_view(segs@),
                    ) + pending@
                },
                Err(FsError::NotFound) => {
                    &&& !has_path(old(self)@, segs_view(segs@))
                    &&& final(self)@ == old(self)@
                },
                Err(FsError::NotADirectory) => {
                    &&& has_path(old(self)@, segs_view(segs@))
                    &&& node_at(old(self)@, segs_view(segs@)).kind is Dir
                    &&& final(self)@ == old(self)@
                },
                Err(_) => false,
            },
    {
        let ghost pv = segs_view(segs@);
        let ghost ns0 = self@;
        let i = match self.find_node(segs) {
            None => {
                return Err(FsError::NotFound);
            },
            Some(i) => i,
        };
        proof {
            lemma_node_at(self@, i as int);
        }
        assert(self@[i as int] == self.nodes@[i as int]@);
        let mut data = match &self.nodes[i].kind {
            NodeKind::Dir => {
                assert(node_at(self@, pv).kind is Dir);
                return Err(FsError::NotADirectory);
            },
            NodeKind::File(d) => d.clone(),
        };
        assert(file_exists(ns0, pv));
        assert(data@ == file_data(ns0, pv));
        append_bytes(&mut data, pending);
        let node = Node { segs: clone_path(segs), kind: NodeKind::File(data) };
        self.nodes.set(i, node);
        assert(self@ =~= fs_set_file(ns0, pv, file_data(ns0, pv) + pending@)) by {
            assert(forall|j: int| 0 <= j < self@.len() ==> self@[j] == self.nodes@[j]@);
            assert(forall|j: int|
                0 <= j < ns0.len() && j != i ==> ns0[j].path != pv && self@[j] == ns0[j]);
        }
        proof {
            lemma_set_file_props(ns0, pv, file_data(ns0, pv) + pending@);
        }
        Ok(())
    }

    /// Opens the confined path for reading.  The reader snapshots the
    /// committed content at open time: bytes buffered in a writer and
    /// not yet flushed are never observed.
    pub fn open_for_read_at(&self, p: &ConfinedPath) -> (r: Result<crate::file::FileReader, FsError>)
        requires
            self.wf(),
        ensures
            match r {
                Ok(rd) => {
                    &&& open_read_outcome(self@, p@) is Ok
                    &&& file_exists(self@, p@)
                    &&& rd.data_spec() == file_data(self@, p@)
                    &&& rd.pos_spec() == 0
                },
                Err(e) => open_read_outcome(self@, p@) == Err::<(), FsError>(e),
            },
    {
        let segs = p.segments();
        if segs.len() == 0 {
            assert(p@.len() == 0);
            return Err(FsError::NotADirectory);
        }
        assert(p@.len() > 0);
        let i = match self.find_node(segs) {
            None => {
                return Err(FsError::NotFound);
            },
            Some(i) => i,
        };
        proof {
            lemma_node_at(self@, i as int);
        }
        assert(self@[i as int] == self.nodes@[i as int]@);
        match &self.nodes[i].kind {
            NodeKind::Dir => {
                assert(node_at(self@, p@).kind is Dir);
                Err(FsError::NotADirectory)
            },
            NodeKind::File(d) => {
                let rd = crate::file::FileReader::from_data(d.clone());
                assert(rd.data_spec() == file_data(self@, p@));
                Ok(rd)
            },
        }
    }

    /// Opens a raw contract-supplied path for reading.
    pub fn open_for_read(&self, raw: &Vec<u8>) -> (r: Result<crate::file::FileReader, FsError>)
        requires
            self.wf(),
        ensures
            crate::path::resolve_spec(raw@) is Err ==> r is Err && r->Err_0
                == crate::path::resolve_spec(raw@)->Err_0,
            crate::path::resolve_spec(raw@) is Ok ==> {
                let p = crate::path::resolve_spec(raw@)->Ok_0;
                match r {
                    Ok(rd) => {
                        &&& open_read_outcome(self@, p) is Ok
                        &&& rd.data_spec() == file_data(self@, p)
                        &&& rd.pos_spec() == 0
                    },
                    Err(e) => open_read_outcome(self@, p) == Err::<(), FsError>(e),
                }
            },
    {
        match resolve(raw) {
            Err(e) => Err(e),
            Ok(p) => self.open_for_read_at(&p),
        }
    }

    /// Creates a directory under a raw contract-supplied path: the path
    /// is confined first, and a confinement failure is reported before
    /// the tree is looked at.
    pub fn create_dir(&mut self, raw: &Vec<u8>) -> (r: Result<(), FsError>)
        requires
            old(self).wf(),
        ensures
            final(self).wf(),
            final(self).root_spec() == old(self).root_spec(),
            crate::path::resolve_spec(raw@) is Err ==> r == Err::<(), FsError>(
                crate::path::resolve_spec(raw@)->Err_0,
            ) && final(self)@ == old(self)@,
            crate::path::resolve_spec(raw@) is Ok ==> {
                let p = crate::path::resolve_spec(raw@)->Ok_0;
                &&& r == create_dir_outcome(old(self)@, p)
                &&& (r is Err ==> final(self)@ == old(self)@)
                &&& (r is Ok ==> final(self)@ == old(self)@.push(
                    NodeV { path: p, kind: KindV::Dir },
                ))
            },
    {
        match resolve(raw) {
            Err(e) => Err(e),
            Ok(p) => {
                let res = self.create_dir_at(&p);
                proof {
                    let ghost oc = create_dir_outcome(old(self)@, p@);
                    match res {
                        Ok(()) => {
                            assert(oc == Ok::<(), FsError>(()));
                            assert(res->Ok_0 == ());
                            assert(res == Ok::<(), FsError>(res->Ok_0));
                            assert(res == oc);
                        },
                        Err(FsError::AlreadyExists) => {
                            assert(oc == Err::<(), FsError>(FsError::AlreadyExists));
                            assert(res == oc);
                        },
                        Err(FsError::NotFound) => {
                            assert(oc == Err::<(), FsError>(FsError::NotFound));
                            assert(res == oc);
                        },
                        Err(FsError::NotADirectory) => {
                            assert(oc == Err::<(), FsError>(FsError::NotADirectory));
                            assert(res == oc);
                        },
                        Err(_) => {
                            assert(false);
                        },
                    }
                    assert(res == oc);
                    assert(crate::path::resolve_spec(raw@)->Ok_0 == p@);
                }
                res
            },
        }
    }

    /// Removes a file or empty directory under a raw contract-supplied
    /// path.
    pub fn remove_entry(&mut self, raw: &Vec<u8>) -> (r: Result<(), FsError>)
        requires
            old(self).wf(),
        ensures
            final(self).wf(),
            final(self).root_spec() == old(self).root_spec(),
            crate::path::resolve_spec(raw@) is Err ==> r == Err::<(), FsError>(
                crate::path::resolve_spec(raw@)->Err_0,
            ) && final(self)@ == old(self)@,
            crate::path::resolve_spec(raw@) is Ok ==> {
                let p = crate::path::resolve_spec(raw@)->Ok_0;
                &&& r == remove_outcome(old(self)@, p)
                &&& (r is Err ==> final(self)@ == old(self)@)
                &&& (r is Ok ==> {
                    &&& final(self)@ == old(self)@.remove(idx_of(old(self)@, p))
                    &&& !has_path(final(self)@, p)
                    &&& forall|q: Seq<Seq<u8>>|
                        q != p ==> has_path(final(self)@, q) == has_path(old(self)@, q)
                    &&& forall|q: Seq<Seq<u8>>|
                        q != p && has_path(old(self)@, q) ==> node_at(final(self)@, q) == node_at(
                            old(self)@,
                            q,
                        )
                })
            },
    {
        match resolve(raw) {
            Err(e) => Err(e),
            Ok(p) => {
                let res = self.remove_entry_at(&p);
                proof {
                    let ghost oc = remove_outcome(old(self)@, p@);
                    match res {
                        Ok(()) => {
                            assert(oc == Ok::<(), FsError>(()));
                            assert(res == Ok::<(), FsError>(res->Ok_0));
                            assert(res == oc);
                        },
                        Err(FsError::InvalidPath) => {
                            assert(oc == Err::<(), FsError>(FsError::InvalidPath));
                        },
                        Err(FsError::NotFound) => {
                            assert(oc == Err::<(), FsError>(FsError::NotFound));
                        },
                        Err(FsError::NotEmpty) => {
                            assert(oc == Err::<(), FsError>(FsError::NotEmpty));
                        },
                        Err(_) => {
                            assert(false);
                        },
                    }
                    assert(res == oc);
                    assert(crate::path::resolve_spec(raw@)->Ok_0 == p@);
                }
                res
            },
        }
    }

    /// Moves an entry between two raw contract-supplied paths.  Both
    /// endpoints are confined before the tree is looked at, the source
    /// first.
    pub fn move_entry(&mut self, old_raw: &Vec<u8>, new_raw: &Vec<u8>) -> (r: Result<(), FsError>)
        requires
            old(self).wf(),
        ensures
            final(self).wf(),
            final(self).root_spec() == old(self).root_spec(),
            crate::path::resolve_spec(old_raw@) is Err ==> r == Err::<(), FsError>(
                crate::path::resolve_spec(old_raw@)->Err_0,
            ) && final(self)@ == old(self)@,
            crate::path::resolve_spec(old_raw@) is Ok && crate::path::resolve_spec(new_raw@)
                is Err ==> r == Err::<(), FsError>(crate::path::resolve_spec(new_raw@)->Err_0)
                && final(self)@ == old(self)@,
            crate::path::resolve_spec(old_raw@) is Ok && crate::path::resolve_spec(new_raw@)
                is Ok ==> {
                let op = crate::path::resolve_spec(old_raw@)->Ok_0;
                let np = crate::path::resolve_spec(new_raw@)->Ok_0;
                &&& r == move_outcome(old(self)@, op, np)
                &&& (r is Err ==> final(self)@ == old(self)@)
                &&& (r is Ok ==> final(self)@ == moved_view(old(self)@, op, np))
            },
    {
        let op = match resolve(old_raw) {
            Err(e) => {
                return Err(e);
            },
            Ok(p) => p,
        };
        let np = match resolve(new_raw) {
            Err(e) => {
                return Err(e);
            },
            Ok(p) => p,
        };
        self.move_entry_at(&op, &np)
    }
}

} // verus!
