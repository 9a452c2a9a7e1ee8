//! File handles: a buffered writer and a snapshot reader, each bound to
//! one confined file.
//!
//! A writer buffers every `write`; nothing becomes visible to any
//! reader before an explicit `flush` (or `close`), which appends the
//! buffered bytes to the committed content in one step.  A reader
//! snapshots the committed content when it is opened.

use vstd::prelude::*;

use crate::errors::FsError;
use crate::fs::{
    file_data, file_exists, fs_set_file, has_path, lemma_push_props, lemma_push_node_wf,
    lemma_set_file_props, node_at, open_read_outcome, open_write_outcome, open_write_result,
    wf_nodes, KindV, NodeV, Sandbox,
};
use crate::path::segs_view;

verus! {

/// A buffered writer for one confined file.  Created by
/// `Sandbox::open_for_write`; owns its pending bytes until they are
/// flushed.
pub struct FileWriter {
    segs: Vec<Vec<u8>>,
    pending: Vec<u8>,
}

impl FileWriter {
    /// The confined path this writer commits to.
    pub closed spec fn path_spec(&self) -> Seq<Seq<u8>> {
        segs_view(self.segs@)
    }

    /// The bytes written but not yet flushed.
    pub closed spec fn pending_spec(&self) -> Seq<u8> {
        self.pending@
    }

    /// Binds a fresh writer, with nothing pending, to a segment path.
    pub(crate) fn new_for(segs: Vec<Vec<u8>>) -> (w: FileWriter)
        ensures
            w.path_spec() == segs_view(segs@),
            w.pending_spec() == Seq::<u8>::empty(),
    {
        FileWriter { segs, pending: Vec::new() }
    }

    /// Buffers the whole of `buf` and reports how many bytes were
    /// accepted (always all of them).  Nothing reaches the tree yet.
    pub fn write(&mut self, buf: &Vec<u8>) -> (n: usize)
        ensures
            final(self).path_spec() == old(self).path_spec(),
            final(self).pending_spec() == old(self).pending_spec() + buf@,
            n == buf@.len(),
    {
        crate::fs::append_bytes(&mut self.pending, buf);
        buf.len()
    }

    /// Commits the buffered bytes: appends them to the committed
    /// content of the file in one step and empties the buffer.  Fails —
    /// leaving tree and buffer untouched — when the file has been
    /// removed (`NotFound`) or replaced by a directory
    /// (`NotADirectory`) since the writer was opened.
    pub fn flush(&mut self, fs: &mut Sandbox) -> (r: Result<(), FsError>)
        requires
            old(fs).wf(),
        ensures
            final(fs).wf(),
            final(fs).root_spec() == old(fs).root_spec(),
            final(self).path_spec() == old(self).path_spec(),
            match r {
                Ok(()) => {
                    &&& file_exists(old(fs)@, old(self).path_spec())
                    &&& final(fs)@ == fs_set_file(
                        old(fs)@,
                        old(self).path_spec(),
                        file_data(old(fs)@, old(self).path_spec()) + old(self).pending_spec(),
                    )
                    &&& file_data(final(fs)@, old(self).path_spec()) == file_data(
                        old(fs)@,
                        old(self).path_spec(),
                    ) + old(self).pending_spec()
                    &&& final(self).pending_spec() == Seq::<u8>::empty()
                },
                Err(FsError::NotFound) => {
                    &&& !has_path(old(fs)@, old(self).path_spec())
                    &&& final(fs)@ == old(fs)@
                    &&& final(self).pending_spec() == old(self).pending_spec()
                },
                Err(FsError::NotADirectory) => {
                    &&& has_path(old(fs)@, old(self).path_spec())
                    &&& node_at(old(fs)@, old(self).path_spec()).kind is Dir
                    &&& final(fs)@ == old(fs)@
                    &&& final(self).pending_spec() == old(self).pending_spec()
                },
                Err(_) => false,
            },
    {
        match fs.commit_bytes(&self.segs, &self.pending) {
            Ok(()) => {
                self.pending = Vec::new();
                Ok(())
            },
            Err(e) => Err(e),
        }
    }

    /// Flushes and releases the writer.
    pub fn close(self, fs: &mut Sandbox) -> (r: Result<(), FsError>)
        requires
            old(fs).wf(),
        ensures
            final(fs).wf(),
            final(fs).root_spec() == old(fs).root_spec(),
            match r {
                Ok(()) => {
                    &&& file_exists(old(fs)@, self.path_spec())
                    &&& final(fs)@ == fs_set_file(
                        old(fs)@,
                        self.path_spec(),
                        file_data(old(fs)@, self.path_spec()) + self.pending_spec(),
                    )
                    &&& file_data(final(fs)@, self.path_spec()) == file_data(
                        old(fs)@,
                        self.path_spec(),
                    ) + self.pending_spec()
                },
                Err(FsError::NotFound) => {
                    &&& !has_path(old(fs)@, self.path_spec())
                    &&& final(fs)@ == old(fs)@
                },
                Err(FsError::NotADirectory) => {
                    &&& has_path(old(fs)@, self.path_spec())
                    &&& node_at(old(fs)@, self.path_spec()).kind is Dir
                    &&& final(fs)@ == old(fs)@
                },
                Err(_) => false,
            },
    {
        let mut w = self;
        w.flush(fs)
    }
}

/// A reader over the committed content of one confined file, snapshot
/// at open time.  Created by `Sandbox::open_for_read`.
pub struct FileReader {
    data: Vec<u8>,
    pos: usize,
}

impl FileReader {
    /// The snapshot this reader serves.
    pub closed spec fn data_spec(&self) -> Seq<u8> {
        self.data@
    }

    /// How many bytes have been consumed already.
    pub closed spec fn pos_spec(&self) -> int {
        self.pos as int
    }

    /// Snapshots the given committed content into a fresh reader.
    pub(crate) fn from_data(data: Vec<u8>) -> (r: FileReader)
        ensures
            r.data_spec() == data@,
            r.pos_spec() == 0,
    {
        FileReader { data, pos: 0 }
    }

    /// Reads everything that is left of the snapshot and consumes it.
    pub fn read_to_end(&mut self) -> (r: Vec<u8>)
        requires
            old(self).pos_spec() <= old(self).data_spec().len(),
        ensures
            final(self).data_spec() == old(self).data_spec(),
            final(self).pos_spec() == old(self).data_spec().len(),
            r@ == old(self).data_spec().skip(old(self).pos_spec()),
    {
        let n: usize = self.data.len();
        let mut out: Vec<u8> = Vec::new();
        let start: usize = self.pos;
        let mut i: usize = start;
        while i < n
            invariant
                start <= i <= n,
                n == self.data@.len(),
                self.data@ == old(self).data_spec(),
                self.pos == start,
                out@ == self.data@.subrange(start as int, i as int),
            decreases n - i,
        {
            out.push(self.data[i]);
            assert(self.data@.subrange(start as int, i as int).push(self.data@[i as int])
                =~= self.data@.subrange(start as int, i + 1 as int));
            i += 1;
        }
        self.pos = n;
        assert(out@ =~= self.data@.skip(start as int));
        out
    }
}

/// Round trip: opening a file for writing, committing bytes `data`, and
/// reading the file back yields exactly `data` — for every content, the
/// empty one included.  Stated over the tree transformers that
/// `open_for_write`, `flush` and `open_for_read` are specified with.
pub proof fn lemma_write_read_round_trip(ns: Seq<NodeV>, p: Seq<Seq<u8>>, data: Seq<u8>)
    requires
        wf_nodes(ns),
        open_write_outcome(ns, p) is Ok,
    ensures
        wf_nodes(open_write_result(ns, p)),
        file_exists(open_write_result(ns, p), p),
        file_data(open_write_result(ns, p), p) == Seq::<u8>::empty(),
        file_data(fs_set_file(open_write_result(ns, p), p, data), p) == data,
        open_read_outcome(fs_set_file(open_write_result(ns, p), p, data), p) is Ok,
{
    let opened = open_write_result(ns, p);
    if has_path(ns, p) {
        lemma_set_file_props(ns, p, Seq::<u8>::empty());
    } else {
        let n = NodeV { path: p, kind: KindV::File(Seq::<u8>::empty()) };
        lemma_push_node_wf(ns, n);
        lemma_push_props(ns, n);
    }
    assert(wf_nodes(opened) && file_exists(opened, p) && file_data(opened, p) == Seq::<
        u8,
    >::empty());
    lemma_set_file_props(opened, p, data);
}

} // verus!
