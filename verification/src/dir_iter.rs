//! The lazy, mutation-safe directory iterator: a depth-first, pre-order
//! traversal over snapshots of one directory level at a time.
//!
//! Nothing is listed before the first advance.  Each descended
//! directory contributes one frame holding the snapshot of its children
//! at descent time, so a removal through the iterator never corrupts
//! forward progress: the snapshot of the enclosing level is unaffected,
//! no entry is skipped and none is repeated.

use vstd::prelude::*;

use crate::dir_source::{children_of, entries_view, list_outcome, DirEntry, EntryKind, EntryV};
use crate::errors::FsError;
use crate::fs::{
    has_child, has_path, idx_of, node_at, remove_outcome, NodeV, Sandbox,
};
use crate::path::{resolve, resolve_spec, segs_view};

verus! {

/// The enumeration state of one directory level: a snapshot of its
/// children and the position of the next entry to yield.
pub struct Frame {
    items: Vec<DirEntry>,
    pos: usize,
}

/// The mathematical view of a frame.
pub ghost struct FrameV {
    pub items: Seq<EntryV>,
    pub pos: int,
}

impl View for Frame {
    type V = FrameV;

    closed spec fn view(&self) -> FrameV {
        FrameV { items: entries_view(self.items@), pos: self.pos as int }
    }
}

/// What one frame still owes: its snapshot from the position on.
pub open spec fn frame_pending(f: FrameV) -> Seq<EntryV> {
    f.items.skip(f.pos)
}

/// What a whole frame stack still owes, top of stack (the last frame)
/// first.
pub open spec fn frames_pending(fs: Seq<FrameV>) -> Seq<EntryV>
    decreases fs.len(),
{
    if fs.len() == 0 {
        Seq::<EntryV>::empty()
    } else {
        frame_pending(fs.last()) + frames_pending(fs.drop_last())
    }
}

/// What the next advance will work from: the entries the iterator
/// already owes or — before the first advance — the children its root
/// directory will be found to have.
pub open spec fn planned_start(it: DirIterator, ns: Seq<NodeV>) -> Seq<EntryV> {
    if it.started_spec() {
        it.pending()
    } else if list_outcome(ns, it.root_spec()) is Ok {
        children_of(ns, it.root_spec())
    } else {
        Seq::<EntryV>::empty()
    }
}

/// The lazy traversal itself.
pub struct DirIterator {
    root: Vec<Vec<u8>>,
    recursive: bool,
    started: bool,
    frames: Vec<Frame>,
    current: Option<DirEntry>,
    yielded: Ghost<Seq<EntryV>>,
    snapshot: Ghost<Seq<EntryV>>,
}

impl DirIterator {
    /// The confined directory the traversal starts from.
    pub closed spec fn root_spec(&self) -> Seq<Seq<u8>> {
        segs_view(self.root@)
    }

    pub closed spec fn recursive_spec(&self) -> bool {
        self.recursive
    }

    /// Whether the first advance has happened yet.
    pub closed spec fn started_spec(&self) -> bool {
        self.started
    }

    pub closed spec fn frames_spec(&self) -> Seq<FrameV> {
        Seq::new(self.frames@.len(), |i: int| self.frames@[i]@)
    }

    /// Every entry the iterator still owes, in the order it will yield
    /// them (as long as no directory is descended into).
    pub open spec fn pending(&self) -> Seq<EntryV> {
        frames_pending(self.frames_spec())
    }

    /// Every entry yielded so far, in order.
    pub closed spec fn yielded_spec(&self) -> Seq<EntryV> {
        self.yielded@
    }

    /// The snapshot of the root directory's children taken at the first
    /// advance (meaningful for a non-recursive traversal).
    pub closed spec fn snapshot_spec(&self) -> Seq<EntryV> {
        self.snapshot@
    }

    /// The most recently yielded entry, if it has not been consumed by
    /// a removal.
    pub closed spec fn current_spec(&self) -> Option<EntryV> {
        match self.current {
            Some(ref e) => Some(e@),
            None => None,
        }
    }

    /// Position bounds and non-degenerate entry paths in every frame.
    pub open spec fn frames_ok(&self) -> bool {
        &&& forall|i: int|
            0 <= i < self.frames_spec().len() ==> 0 <= (#[trigger] self.frames_spec()[i]).pos
                <= self.frames_spec()[i].items.len()
        &&& forall|i: int, k: int|
            0 <= i < self.frames_spec().len() && 0 <= k < self.frames_spec()[i].items.len() ==> (
            #[trigger] self.frames_spec()[i].items[k]).path.len() > 0
    }

    /// The iterator invariant.  For a non-recursive traversal it pins
    /// completeness: what was yielded plus what is pending is exactly
    /// the snapshot taken at the first advance.
    pub open spec fn wf(&self) -> bool {
        &&& self.frames_ok()
        &&& !self.started_spec() ==> {
            &&& self.frames_spec().len() == 0
            &&& self.yielded_spec() == Seq::<EntryV>::empty()
            &&& self.snapshot_spec() == Seq::<EntryV>::empty()
            &&& self.current_spec() is None
        }
        &&& match self.current_spec() {
            Some(c) => c.path.len() > 0,
            None => true,
        }
        &&& !self.recursive_spec() ==> {
            &&& self.frames_spec().len() <= 1
            &&& self.started_spec() ==> self.yielded_spec() + self.pending()
                == self.snapshot_spec()
        }
    }

    /// Binds a traversal to a raw contract-supplied root directory.
    /// Nothing is listed yet: listing begins lazily on the first
    /// advance.
    pub fn new(raw_root: &Vec<u8>, recursive: bool) -> (r: Result<DirIterator, FsError>)
        ensures
            match r {
                Ok(it) => {
                    &&& resolve_spec(raw_root@) == Ok::<Seq<Seq<u8>>, FsError>(it.root_spec())
                    &&& it.wf()
                    &&& !it.started_spec()
                    &&& it.recursive_spec() == recursive
                    &&& it.yielded_spec() == Seq::<EntryV>::empty()
                    &&& it.pending() == Seq::<EntryV>::empty()
                    &&& it.current_spec() is None
                },
                Err(e) => resolve_spec(raw_root@) == Err::<Seq<Seq<u8>>, FsError>(e),
            },
    {
        match resolve(raw_root) {
            Err(e) => Err(e),
            Ok(p) => {
                let it = DirIterator {
                    root: p.into_segments(),
                    recursive,
                    started: false,
                    frames: Vec::new(),
                    current: None,
                    yielded: Ghost(Seq::<EntryV>::empty()),
                    snapshot: Ghost(Seq::<EntryV>::empty()),
                };
                assert(it.frames_spec() =~= Seq::<FrameV>::empty());
                Ok(it)
            },
        }
    }

    /// Advances the traversal.
    ///
    /// The first advance snapshots the root directory's children; each
    /// later advance consumes the first pending entry.  With recursion
    /// enabled, yielding a directory that still lists pushes the
    /// snapshot of its children, so they follow their parent
    /// immediately (pre-order, depth-first) and are exhausted before
    /// the parent's later siblings.  Once nothing is pending the
    /// iterator is exhausted and keeps yielding nothing.
    pub fn next(&mut self, fs: &Sandbox) -> (r: Option<DirEntry>)
        requires
            fs.wf(),
            old(self).wf(),
        ensures
            final(self).wf(),
            final(self).root_spec() == old(self).root_spec(),
            final(self).recursive_spec() == old(self).recursive_spec(),
            final(self).started_spec(),
            old(self).started_spec() ==> final(self).snapshot_spec() == old(self).snapshot_spec(),
            !old(self).started_spec() ==> final(self).snapshot_spec() == planned_start(
                *old(self),
                fs@,
            ),
            match r {
                None => {
                    &&& planned_start(*old(self), fs@).len() == 0
                    &&& final(self).current_spec() is None
                    &&& final(self).yielded_spec() == old(self).yielded_spec()
                    &&& final(self).pending() == Seq::<EntryV>::empty()
                },
                Some(e) => {
                    &&& planned_start(*old(self), fs@).len() > 0
                    &&& e@ == planned_start(*old(self), fs@).first()
                    &&& final(self).current_spec() == Some(e@)
                    &&& final(self).yielded_spec() == old(self).yielded_spec().push(e@)
                    &&& final(self).pending() == {
                        let rest = planned_start(*old(self), fs@).drop_first();
                        if old(self).recursive_spec() && e@.kind == EntryKind::Dir && list_outcome(
                            fs@,
                            e@.path,
                        ) is Ok {
                            children_of(fs@, e@.path) + rest
                        } else {
                            rest
                        }
                    }
                },
            },
    {
        let ghost p0 = planned_start(*old(self), fs@);
        if !self.started {
            self.started = true;
            match fs.list_dir_segs(&self.root) {
                Ok(items) => {
                    proof {
                        crate::dir_source::lemma_children_sourced(fs@, self.root_spec());
                    }
                    self.snapshot = Ghost(entries_view(items@));
                    let ghost fv0 = self.frames_spec();
                    assert(fv0.len() == 0);
                    let f = Frame { items, pos: 0 };
                    let ghost fview = f@;
                    self.frames.push(f);
                    proof {
                        assert(self.frames_spec() =~= fv0.push(fview));
                        assert((fv0.push(fview)).drop_last() =~= fv0);
                        assert(self.pending() == frame_pending(fview) + frames_pending(fv0));
                        assert(fview.items.skip(0) =~= fview.items);
                        assert(self.pending() =~= p0);
                    }
                },
                Err(_) => {
                    self.snapshot = Ghost(Seq::<EntryV>::empty());
                    proof {
                        assert(self.frames_spec().len() == 0);
                        assert(self.pending() =~= p0);
                    }
                },
            }
        }
        assert(self.pending() == p0);
        let ghost snap = self.snapshot_spec();
        assert(old(self).started_spec() ==> snap == old(self).snapshot_spec());
        assert(!old(self).started_spec() ==> snap == planned_start(*old(self), fs@));
        assert(!self.recursive_spec() ==> self.yielded_spec() + self.pending()
            == self.snapshot_spec());
        while self.frames.len() > 0
            invariant
                fs.wf(),
                self.started_spec(),
                self.frames_ok(),
                self.root_spec() == old(self).root_spec(),
                self.recursive_spec() == old(self).recursive_spec(),
                self.yielded_spec() == old(self).yielded_spec(),
                self.current_spec() == old(self).current_spec(),
                match self.current_spec() {
                    Some(c) => c.path.len() > 0,
                    None => true,
                },
                self.pending() == p0,
                p0 == planned_start(*old(self), fs@),
                old(self).started_spec() ==> snap == old(self).snapshot_spec(),
                !old(self).started_spec() ==> snap == planned_start(*old(self), fs@),
                !self.recursive_spec() ==> self.frames_spec().len() <= 1,
                !self.recursive_spec() ==> self.yielded_spec() + self.pending()
                    == self.snapshot_spec(),
                self.snapshot_spec() == snap,
            decreases self.frames@.len(),
        {
            let ghost fv = self.frames_spec();
            let mut f = match self.frames.pop() {
                Some(f) => f,
                None => {
                    return None;
                },
            };
            assert(fv.last() == f@);
            assert(self.frames_spec() =~= fv.drop_last());
            if f.pos < f.items.len() {
                let e = f.items[f.pos].duplicate();
                assert(e@ == f@.items[f@.pos]);
                assert(frame_pending(f@).len() > 0);
                assert(p0 == frame_pending(f@) + frames_pending(fv.drop_last()));
                assert(p0.first() == frame_pending(f@).first());
                assert(frame_pending(f@).first() == f@.items[f@.pos]);
                assert(e@ == p0.first());
                assert(e@.path.len() > 0) by {
                    assert(fv[fv.len() - 1].items[f@.pos].path.len() > 0);
                }
                let ghost fpos = f@.pos;
                f.pos = f.pos + 1;
                let ghost fview = f@;
                assert(fview.pos == fpos + 1);
                assert(fview.items == fv.last().items);
                let ghost fv1 = self.frames_spec();
                self.frames.push(f);
                proof {
                    assert(self.frames_spec() =~= fv1.push(fview));
                    assert((fv1.push(fview)).drop_last() =~= fv1);
                    assert(self.pending() == frame_pending(fview) + frames_pending(fv1));
                    assert(frames_pending(fv1) == frames_pending(fv.drop_last()));
                    assert(self.pending() =~= p0.drop_first()) by {
                        assert(frame_pending(fview) =~= fv.last().items.skip(fpos).drop_first());
                        assert(p0.drop_first() =~= fv.last().items.skip(fpos).drop_first()
                            + frames_pending(fv.drop_last()));
                    }
                }
                let ghost mut child_items = Seq::<EntryV>::empty();
                if self.recursive && matches!(e.kind, EntryKind::Dir) {
                    match fs.list_dir_segs(&e.segs) {
                        Ok(items) => {
                            proof {
                                crate::dir_source::lemma_children_sourced(fs@, e@.path);
                            }
                            let ghost fv2 = self.frames_spec();
                            let nf = Frame { items, pos: 0 };
                            let ghost nfview = nf@;
                            self.frames.push(nf);
                            proof {
                                child_items = nfview.items;
                                assert(self.frames_spec() =~= fv2.push(nfview));
                                assert((fv2.push(nfview)).drop_last() =~= fv2);
                                assert(self.pending() == frame_pending(nfview) + frames_pending(
                                    fv2,
                                ));
                                assert(nfview.items.skip(0) =~= nfview.items);
                                assert(nfview.items == children_of(fs@, e@.path));
                                assert(self.pending() == children_of(fs@, e@.path)
                                    + p0.drop_first());
                            }
                        },
                        Err(_) => {},
                    }
                }
                self.current = Some(e.duplicate());
                proof {
                    self.yielded@ = self.yielded@.push(e@);
                }
                proof {
                    let fsn = self.frames_spec();
                    assert forall|i: int| 0 <= i < fsn.len() implies 0 <= (#[trigger] fsn[i]).pos
                        <= fsn[i].items.len() by {
                        if i < fv.len() - 1 {
                            assert(fsn[i] == fv[i]);
                        } else if i == fv.len() - 1 {
                            assert(fsn[i] == fview);
                            assert(fv[i].pos == fpos && fv[i].items == fview.items);
                        } else {
                            assert(fsn[i].pos == 0);
                        }
                    }
                    assert forall|i: int, k: int|
                        0 <= i < fsn.len() && 0 <= k < fsn[i].items.len() implies (
                        #[trigger] fsn[i].items[k]).path.len() > 0 by {
                        if i < fv.len() - 1 {
                            assert(fsn[i] == fv[i]);
                            assert(fv[i].items[k].path.len() > 0);
                        } else if i == fv.len() - 1 {
                            assert(fsn[i] == fview);
                            assert(fv[i].items == fview.items);
                            assert(fv[i].items[k].path.len() > 0);
                        } else {
                            assert(fsn[i].items == child_items);
                            assert(child_items == children_of(fs@, e@.path));
                            assert(child_items[k] == children_of(fs@, e@.path)[k]);
                            let j = choose|j: int|
                                0 <= j < fs@.len() && crate::dir_source::is_child_node(
                                    fs@[j],
                                    e@.path,
                                ) && children_of(fs@, e@.path)[k] == crate::dir_source::entry_of(
                                    fs@[j],
                                );
                            assert(fs@[j].path.len() == e@.path.len() + 1);
                        }
                    }
                    if !self.recursive {
                        assert(self.frames_spec().len() <= 1);
                        assert(self.yielded_spec() + self.pending() =~= old(self).yielded_spec()
                            + p0) by {
                            assert(self.pending() == p0.drop_first());
                        }
                    }
                }
                return Some(e);
            } else {
                assert(frame_pending(f@).len() == 0);
                assert(frame_pending(f@) + frames_pending(fv.drop_last()) =~= frames_pending(
                    fv.drop_last(),
                ));
            }
        }
        assert(self.frames_spec() =~= Seq::<FrameV>::empty());
        assert(self.pending().len() == 0);
        assert(p0.len() == 0);
        self.current = None;
        None
    }

    /// Removes the entry yielded by the last advance.
    ///
    /// Valid only while a current entry exists: before any advance,
    /// after exhaustion, and right after a removal on the same position
    /// it fails with `NoCurrentEntry`.  A directory that still has
    /// children is refused with `NotEmpty`, and an entry that already
    /// disappeared through a direct operation reports `NotFound` —
    /// both leave the current position in place.  A successful removal
    /// deletes exactly the current entry from the tree, consumes the
    /// current position, and leaves every frame — and with them the
    /// sequence of entries still to be yielded — exactly as it was:
    /// nothing is skipped and nothing is repeated.
    pub fn remove_current(&mut self, fs: &mut Sandbox) -> (r: Result<(), FsError>)
        requires
            old(fs).wf(),
            old(self).wf(),
        ensures
            final(self).wf(),
            final(fs).wf(),
            final(fs).root_spec() == old(fs).root_spec(),
            final(self).root_spec() == old(self).root_spec(),
            final(self).recursive_spec() == old(self).recursive_spec(),
            final(self).started_spec() == old(self).started_spec(),
            final(self).frames_spec() == old(self).frames_spec(),
            final(self).pending() == old(self).pending(),
            final(self).yielded_spec() == old(self).yielded_spec(),
            final(self).snapshot_spec() == old(self).snapshot_spec(),
            match r {
                Ok(()) => {
                    &&& old(self).current_spec() is Some
                    &&& {
                        let c = old(self).current_spec()->0;
                        &&& remove_outcome(old(fs)@, c.path) is Ok
                        &&& final(fs)@ == old(fs)@.remove(idx_of(old(fs)@, c.path))
                        &&& !has_path(final(fs)@, c.path)
                        &&& forall|q: Seq<Seq<u8>>|
                            q != c.path ==> has_path(final(fs)@, q) == has_path(old(fs)@, q)
                        &&& forall|q: Seq<Seq<u8>>|
                            q != c.path && has_path(old(fs)@, q) ==> node_at(final(fs)@, q)
                                == node_at(old(fs)@, q)
                    }
                    &&& final(self).current_spec() is None
                },
                Err(FsError::NoCurrentEntry) => {
                    &&& old(self).current_spec() is None
                    &&& final(fs)@ == old(fs)@
                    &&& final(self).current_spec() is None
                },
                Err(FsError::NotFound) => {
                    &&& old(self).current_spec() is Some
                    &&& !has_path(old(fs)@, (old(self).current_spec()->0).path)
                    &&& final(fs)@ == old(fs)@
                    &&& final(self).current_spec() == old(self).current_spec()
                },
                Err(FsError::NotEmpty) => {
                    &&& old(self).current_spec() is Some
                    &&& {
                        let c = old(self).current_spec()->0;
                        &&& has_path(old(fs)@, c.path)
                        &&& node_at(old(fs)@, c.path).kind is Dir
                        &&& has_child(old(fs)@, c.path)
                    }
                    &&& final(fs)@ == old(fs)@
                    &&& final(self).current_spec() == old(self).current_spec()
                },
                Err(_) => false,
            },
    {
        let c_segs = match &self.current {
            None => {
                return Err(FsError::NoCurrentEntry);
            },
            Some(c) => {
                assert(c@.path.len() > 0);
                crate::fs::clone_path(&c.segs)
            },
        };
        assert(segs_view(c_segs@) == (old(self).current_spec()->0).path);
        match fs.remove_entry_segs(&c_segs) {
            Ok(()) => {
                self.current = None;
                Ok(())
            },
            Err(e) => Err(e),
        }
    }
}

/// Pre-order of the recursive descent.  `next` promises that right
/// after a directory is yielded, the entries still owed are exactly
/// that directory's children followed by what was owed before: so every
/// child is reached before any entry that was already waiting — the
/// directory precedes its children, and the children precede the
/// directory's later siblings at every enclosing level.
pub proof fn lemma_pre_order_descent(children: Seq<EntryV>, rest: Seq<EntryV>)
    ensures
        forall|k: int| 0 <= k < children.len() ==> (children + rest)[k] == children[k],
        forall|j: int|
            0 <= j < rest.len() ==> (children + rest)[children.len() + j] == rest[j],
{
}

/// Completeness of a full traversal without recursion: once nothing is
/// pending, the entries yielded — in order — are exactly the snapshot
/// of the root directory's children taken at the first advance: no
/// omission and no duplicate.
pub proof fn lemma_iteration_complete(it: DirIterator)
    requires
        it.wf(),
        !it.recursive_spec(),
        it.started_spec(),
        it.pending().len() == 0,
    ensures
        it.yielded_spec() == it.snapshot_spec(),
{
    assert(it.yielded_spec() + it.pending() =~= it.yielded_spec());
}

/// The same, tied to the tree the snapshot was taken from: a finished
/// non-recursive traversal yields exactly the children the root had at
/// the first advance, pairwise distinct in path and in name — whatever
/// order the store exhibited them in.
pub proof fn lemma_iteration_exact(ns: Seq<NodeV>, it: DirIterator)
    requires
        crate::fs::wf_nodes(ns),
        it.wf(),
        !it.recursive_spec(),
        it.started_spec(),
        it.pending().len() == 0,
        it.snapshot_spec() == children_of(ns, it.root_spec()),
    ensures
        it.yielded_spec() == children_of(ns, it.root_spec()),
        forall|a: int, b: int|
            0 <= a < b < it.yielded_spec().len() ==> (#[trigger] it.yielded_spec()[a]).path != (
            #[trigger] it.yielded_spec()[b]).path && it.yielded_spec()[a].name
                != it.yielded_spec()[b].name,
{
    lemma_iteration_complete(it);
    crate::dir_source::lemma_children_distinct(ns, it.root_spec());
}

} // verus!
