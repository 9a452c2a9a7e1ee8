//! Single-directory enumeration: the immediate children of one
//! confined directory, listed as a snapshot in store order.
//!
//! Only set membership and count are contractual for callers; the store
//! order the model exhibits is one admissible native order.

use vstd::prelude::*;

use crate::errors::FsError;
use crate::fs::{
    distinct_paths, has_path, lemma_node_at, node_at, path_starts_with, clone_path, KindV, NodeV,
    Sandbox,
};
use crate::path::{resolve, segs_view, ConfinedPath};

verus! {

/// The kind of an observed child.
#[derive(Clone, Copy, Debug, PartialEq, Eq, Structural)]
pub enum EntryKind {
    File,
    Dir,
}

/// One filesystem child observed during enumeration: its bare name, its
/// full confined path, and its kind.  Produced transiently; never
/// stored.
pub struct DirEntry {
    pub name: Vec<u8>,
    pub segs: Vec<Vec<u8>>,
    pub kind: EntryKind,
}

/// The mathematical view of an observed child.
pub ghost struct EntryV {
    pub name: Seq<u8>,
    pub path: Seq<Seq<u8>>,
    pub kind: EntryKind,
}

impl View for DirEntry {
    type V = EntryV;

    open spec fn view(&self) -> EntryV {
        EntryV { name: self.name@, path: segs_view(self.segs@), kind: self.kind }
    }
}

impl DirEntry {
    /// A full copy of the observed child.
    pub fn duplicate(&self) -> (r: DirEntry)
        ensures
            r@ == self@,
    {
        DirEntry { name: self.name.clone(), segs: clone_path(&self.segs), kind: self.kind }
    }
}

/// The views of a vector of entries.
pub open spec fn entries_view(v: Seq<DirEntry>) -> Seq<EntryV> {
    Seq::new(v.len(), |i: int| v[i]@)
}

/// `n` is an immediate child of the directory at `d`.
pub open spec fn is_child_node(n: NodeV, d: Seq<Seq<u8>>) -> bool {
    n.path.len() == d.len() + 1 && n.path.take(d.len() as int) == d
}

/// The entry a stored node is observed as.
pub open spec fn entry_of(n: NodeV) -> EntryV {
    EntryV {
        name: n.path.last(),
        path: n.path,
        kind: match n.kind {
            KindV::Dir => EntryKind::Dir,
            KindV::File(_) => EntryKind::File,
        },
    }
}

/// The immediate children of `d`, one entry per stored child node, in
/// store order.
pub open spec fn children_of(ns: Seq<NodeV>, d: Seq<Seq<u8>>) -> Seq<EntryV>
    decreases ns.len(),
{
    if ns.len() == 0 {
        Seq::<EntryV>::empty()
    } else {
        let rest = children_of(ns.drop_last(), d);
        if is_child_node(ns.last(), d) {
            rest.push(entry_of(ns.last()))
        } else {
            rest
        }
    }
}

/// Every listed entry is the observation of some stored child node.
pub proof fn lemma_children_sourced(ns: Seq<NodeV>, d: Seq<Seq<u8>>)
    ensures
        forall|k: int|
            0 <= k < children_of(ns, d).len() ==> exists|i: int|
                0 <= i < ns.len() && is_child_node(ns[i], d) && (#[trigger] children_of(ns, d)[k])
                    == entry_of(ns[i]),
    decreases ns.len(),
{
    if ns.len() > 0 {
        lemma_children_sourced(ns.drop_last(), d);
        let rest = children_of(ns.drop_last(), d);
        assert forall|k: int|
            0 <= k < children_of(ns, d).len() implies exists|i: int|
            0 <= i < ns.len() && is_child_node(ns[i], d) && (#[trigger] children_of(ns, d)[k])
                == entry_of(ns[i]) by {
            if k < rest.len() {
                let i = choose|i: int|
                    0 <= i < ns.drop_last().len() && is_child_node(ns.drop_last()[i], d)
                        && rest[k] == entry_of(ns.drop_last()[i]);
                assert(ns.drop_last()[i] == ns[i]);
                assert(children_of(ns, d)[k] == rest[k]);
            } else {
                assert(is_child_node(ns.last(), d));
                assert(children_of(ns, d)[k] == entry_of(ns[ns.len() - 1]));
            }
        }
    }
}

/// In a distinct tree no child is listed twice: pairwise the listed
/// entries differ in path and in name.
pub proof fn lemma_children_distinct(ns: Seq<NodeV>, d: Seq<Seq<u8>>)
    requires
        distinct_paths(ns),
    ensures
        forall|a: int, b: int|
            0 <= a < b < children_of(ns, d).len() ==> (#[trigger] children_of(ns, d)[a]).path != (
            #[trigger] children_of(ns, d)[b]).path && children_of(ns, d)[a].name != children_of(
                ns,
                d,
            )[b].name,
    decreases ns.len(),
{
    if ns.len() > 0 {
        let pre = ns.drop_last();
        assert(forall|i: int| 0 <= i < pre.len() ==> pre[i] == ns[i]);
        assert(distinct_paths(pre)) by {
            assert(forall|i: int, j: int|
                0 <= i < j < pre.len() ==> (#[trigger] pre[i].path) != (#[trigger] pre[j].path));
        }
        lemma_children_distinct(pre, d);
        lemma_children_sourced(pre, d);
        let rest = children_of(pre, d);
        let full = children_of(ns, d);
        // a child's path is its directory plus its name
        assert forall|a: int, b: int|
            0 <= a < b < full.len() implies (#[trigger] full[a]).path != (#[trigger] full[b]).path
            && full[a].name != full[b].name by {
            if is_child_node(ns.last(), d) && b == rest.len() {
                let e = entry_of(ns.last());
                assert(full[b] == e);
                assert(full[a] == rest[a]);
                let i = choose|i: int|
                    0 <= i < pre.len() && is_child_node(pre[i], d) && rest[a] == entry_of(pre[i]);
                assert(ns[i].path != ns.last().path);
                assert(full[a].path == ns[i].path);
                if full[a].name == e.name {
                    assert(ns[i].path =~= d.push(ns[i].path.last()));
                    assert(ns.last().path =~= d.push(ns.last().path.last()));
                    assert(ns[i].path == ns.last().path);
                }
            } else {
                assert(full[a] == rest[a] && full[b] == rest[b]);
            }
        }
    }
}

/// What removing one stored node does to a directory's live listing:
/// removing a child of `d` deletes exactly its own entry, at its
/// position, and removing anything else leaves the listing unchanged.
/// Together with `remove_current`'s promise that the iterator's pending
/// entries are untouched, this is why a removal through the iterator
/// never skips and never repeats an entry.
pub proof fn lemma_children_after_remove(ns: Seq<NodeV>, d: Seq<Seq<u8>>, i: int)
    requires
        0 <= i < ns.len(),
    ensures
        is_child_node(ns[i], d) ==> children_of(ns.take(i), d).len() < children_of(ns, d).len(),
        is_child_node(ns[i], d) ==> children_of(ns, d)[children_of(ns.take(i), d).len() as int]
            == entry_of(ns[i]),
        is_child_node(ns[i], d) ==> children_of(ns.remove(i), d) == children_of(ns, d).remove(
            children_of(ns.take(i), d).len() as int,
        ),
        !is_child_node(ns[i], d) ==> children_of(ns.remove(i), d) == children_of(ns, d),
    decreases ns.len(),
{
    if i == ns.len() - 1 {
        assert(ns.remove(i) =~= ns.drop_last());
        assert(ns.take(i) =~= ns.drop_last());
        if is_child_node(ns[i], d) {
            let rest = children_of(ns.drop_last(), d);
            assert(children_of(ns, d) == rest.push(entry_of(ns.last())));
            assert((rest.push(entry_of(ns.last()))).remove(rest.len() as int) =~= rest);
        }
    } else {
        let pre = ns.drop_last();
        assert(pre[i] == ns[i]);
        lemma_children_after_remove(pre, d, i);
        assert(ns.remove(i) =~= pre.remove(i).push(ns.last()));
        assert((pre.remove(i).push(ns.last())).drop_last() =~= pre.remove(i));
        assert((pre.remove(i).push(ns.last())).last() == ns.last());
        assert(ns.take(i) =~= pre.take(i));
        let rest = children_of(pre, d);
        if is_child_node(ns[i], d) {
            let pos = children_of(pre.take(i), d).len() as int;
            assert(pos < rest.len());
            assert(rest[pos] == entry_of(pre[i]));
            assert(children_of(pre.remove(i), d) == rest.remove(pos));
            if is_child_node(ns.last(), d) {
                assert(children_of(ns, d) == rest.push(entry_of(ns.last())));
                assert((rest.push(entry_of(ns.last()))).remove(pos) =~= rest.remove(pos).push(
                    entry_of(ns.last()),
                ));
            }
        }
    }
}

/// The exact outcome `list_dir` owes.
pub open spec fn list_outcome(ns: Seq<NodeV>, p: Seq<Seq<u8>>) -> Result<(), FsError> {
    if p.len() > 0 && !has_path(ns, p) {
        Err(FsError::NotFound)
    } else if p.len() > 0 && node_at(ns, p).kind is File {
        Err(FsError::NotADirectory)
    } else {
        Ok(())
    }
}

impl Sandbox {
    /// Lists the immediate children of the confined directory, as a
    /// snapshot: the listing never changes after it is produced, even
    /// when the tree does.  Fails with `NotFound` when the directory is
    /// absent and with `NotADirectory` when the path names a file.
    pub fn list_dir_at(&self, p: &ConfinedPath) -> (r: Result<Vec<DirEntry>, FsError>)
        requires
            self.wf(),
        ensures
            match r {
                Ok(v) => {
                    &&& list_outcome(self@, p@) is Ok
                    &&& entries_view(v@) == children_of(self@, p@)
                },
                Err(e) => list_outcome(self@, p@) == Err::<(), FsError>(e),
            },
    {
        self.list_dir_segs(p.segments())
    }

    /// The listing itself, over a bare segment path.
    pub(crate) fn list_dir_segs(&self, segs: &Vec<Vec<u8>>) -> (r: Result<Vec<DirEntry>, FsError>)
        requires
            self.wf(),
        ensures
            match r {
                Ok(v) => {
                    &&& list_outcome(self@, segs_view(segs@)) is Ok
                    &&& entries_view(v@) == children_of(self@, segs_view(segs@))
                },
                Err(e) => list_outcome(self@, segs_view(segs@)) == Err::<(), FsError>(e),
            },
    {
        let ghost pv = segs_view(segs@);
        if segs.len() > 0 {
            match self.find_node(segs) {
                None => {
                    assert(pv.len() > 0);
                    return Err(FsError::NotFound);
                },
                Some(i) => {
                    proof {
                        lemma_node_at(self@, i as int);
                    }
                    if !self.node_is_dir(i) {
                        assert(node_at(self@, pv).kind is File);
                        return Err(FsError::NotADirectory);
                    }
                },
            }
        }
        assert(list_outcome(self@, pv) is Ok);
        let d: usize = segs.len();
        let n: usize = self.node_count();
        let mut out: Vec<DirEntry> = Vec::new();
        let mut i: usize = 0;
        assert(self@.take(0) =~= Seq::<NodeV>::empty());
        assert(entries_view(out@) =~= children_of(self@.take(0), pv));
        while i < n
            invariant
                i <= n,
                n == self@.len(),
                self.wf(),
                d == pv.len(),
                segs_view(segs@) == pv,
                segs@.len() == d,
                entries_view(out@) == children_of(self@.take(i as int), pv),
            decreases n - i,
        {
            let ghost pre = self@.take(i as int);
            let ghost pre1 = self@.take(i + 1 as int);
            assert(pre1.drop_last() =~= pre);
            assert(pre1.last() == self@[i as int]);
            let node_segs = self.node_segs(i);
            if node_segs.len() > 0 && node_segs.len() - 1 == d && path_starts_with(
                node_segs,
                segs,
            ) {
                assert(is_child_node(self@[i as int], pv)) by {
                    assert(segs_view(node_segs@).take(d as int) == pv);
                }
                let name = node_segs[d].clone();
                let kind = if self.node_is_dir(i) {
                    EntryKind::Dir
                } else {
                    EntryKind::File
                };
                let e = DirEntry { name, segs: clone_path(node_segs), kind };
                assert(e@ == entry_of(self@[i as int])) by {
                    assert(segs_view(node_segs@)[d as int] == node_segs@[d as int]@);
                }
                let ghost ov = out@;
                out.push(e);
                assert(entries_view(out@) =~= entries_view(ov).push(e@));
            } else {
                assert(!is_child_node(self@[i as int], pv));
            }
            assert(entries_view(out@) == children_of(pre1, pv));
            i += 1;
        }
        assert(self@.take(n as int) =~= self@);
        Ok(out)
    }

    /// Lists the immediate children of a raw contract-supplied path.
    pub fn list_dir(&self, raw: &Vec<u8>) -> (r: Result<Vec<DirEntry>, FsError>)
        requires
            self.wf(),
        ensures
            crate::path::resolve_spec(raw@) is Err ==> r is Err && r->Err_0
                == crate::path::resolve_spec(raw@)->Err_0,
            crate::path::resolve_spec(raw@) is Ok ==> {
                let p = crate::path::resolve_spec(raw@)->Ok_0;
                match r {
                    Ok(v) => {
                        &&& list_outcome(self@, p) is Ok
                        &&& entries_view(v@) == children_of(self@, p)
                    },
                    Err(e) => list_outcome(self@, p) == Err::<(), FsError>(e),
                }
            },
    {
        match resolve(raw) {
            Err(e) => Err(e),
            Ok(p) => self.list_dir_at(&p),
        }
    }
}

} // verus!
