//! Path confinement: validation and lexical resolution of raw byte paths
//! against the sandbox root.
//!
//! A raw path supplied by untrusted code is a byte string.  Resolution
//! splits it on `/`, folds away `.` and empty segments, and applies `..`
//! segments to a stack of plain segments; a `..` that would pop past the
//! sandbox root is a `PathEscape` and is rejected before any part of the
//! tree is touched.

use vstd::prelude::*;

use crate::errors::FsError;

verus! {

/// The mathematical view of a vector of segments: the sequence of the
/// segments' byte sequences.
pub open spec fn segs_view(v: Seq<Vec<u8>>) -> Seq<Seq<u8>> {
    Seq::new(v.len(), |i: int| v[i]@)
}

pub proof fn lemma_segs_view_push(v: Seq<Vec<u8>>, x: Vec<u8>)
    ensures
        segs_view(v.push(x)) == segs_view(v).push(x@),
{
    assert(segs_view(v.push(x)) =~= segs_view(v).push(x@));
}

pub proof fn lemma_segs_view_drop_last(v: Seq<Vec<u8>>)
    requires
        v.len() > 0,
    ensures
        segs_view(v.drop_last()) == segs_view(v).drop_last(),
{
    assert(segs_view(v.drop_last()) =~= segs_view(v).drop_last());
}

/// The single-byte segment `.`.
pub open spec fn seg_dot() -> Seq<u8> {
    seq![46u8]
}

/// The two-byte segment `..`.
pub open spec fn seg_dotdot() -> Seq<u8> {
    seq![46u8, 46u8]
}

/// A plain segment: non-empty, not `.` or `..`, and free of the
/// separator byte `/` and of NUL.
pub open spec fn plain_seg(s: Seq<u8>) -> bool {
    &&& s.len() > 0
    &&& s != seg_dot()
    &&& s != seg_dotdot()
    &&& forall|i: int| 0 <= i < s.len() ==> s[i] != 47u8 && s[i] != 0u8
}

/// A whole resolved path of plain segments.
pub open spec fn plain_path(p: Seq<Seq<u8>>) -> bool {
    forall|i: int| 0 <= i < p.len() ==> plain_seg(#[trigger] p[i])
}

/// Splitting a byte string on the separator `/`; `n` separators give
/// `n + 1` segments, empty segments included.
pub open spec fn split_segs(b: Seq<u8>) -> Seq<Seq<u8>>
    decreases b.len(),
{
    if b.len() == 0 {
        seq![Seq::<u8>::empty()]
    } else if b.last() == 47u8 {
        split_segs(b.drop_last()).push(Seq::<u8>::empty())
    } else {
        let s = split_segs(b.drop_last());
        s.update(s.len() - 1, s.last().push(b.last()))
    }
}

pub proof fn lemma_split_segs_len(b: Seq<u8>)
    ensures
        split_segs(b).len() >= 1,
    decreases b.len(),
{
    if b.len() > 0 {
        lemma_split_segs_len(b.drop_last());
    }
}

/// Folding the split segments, left to right, onto a stack of plain
/// segments: empty and `.` segments are dropped, `..` pops, and a pop of
/// an empty stack is the lexical escape, reported as `None`.
pub open spec fn resolve_from(st: Seq<Seq<u8>>, segs: Seq<Seq<u8>>) -> Option<Seq<Seq<u8>>>
    decreases segs.len(),
{
    if segs.len() == 0 {
        Some(st)
    } else {
        let s = segs.first();
        if s.len() == 0 || s == seg_dot() {
            resolve_from(st, segs.drop_first())
        } else if s == seg_dotdot() {
            if st.len() == 0 {
                None
            } else {
                resolve_from(st.drop_last(), segs.drop_first())
            }
        } else {
            resolve_from(st.push(s), segs.drop_first())
        }
    }
}

/// The lexical resolution of a raw path, relative to the sandbox root.
pub open spec fn lex_resolve(b: Seq<u8>) -> Option<Seq<Seq<u8>>> {
    resolve_from(Seq::<Seq<u8>>::empty(), split_segs(b))
}

/// A raw path is well formed when it is non-empty and holds no NUL byte.
pub open spec fn valid_raw(b: Seq<u8>) -> bool {
    &&& b.len() > 0
    &&& forall|i: int| 0 <= i < b.len() ==> b[i] != 0u8
}

/// The outcome `resolve` owes for every raw path.
pub open spec fn resolve_spec(b: Seq<u8>) -> Result<Seq<Seq<u8>>, FsError> {
    if !valid_raw(b) {
        Err(FsError::InvalidPath)
    } else {
        match lex_resolve(b) {
            Some(p) => Ok(p),
            None => Err(FsError::PathEscape),
        }
    }
}

/// A raw path already validated and lexically resolved against the
/// sandbox root.  The view is the resolved path: the sequence of plain
/// segments relative to the root.
pub struct ConfinedPath {
    raw: Vec<u8>,
    segs: Vec<Vec<u8>>,
}

impl View for ConfinedPath {
    type V = Seq<Seq<u8>>;

    closed spec fn view(&self) -> Seq<Seq<u8>> {
        segs_view(self.segs@)
    }
}

impl ConfinedPath {
    /// The raw bytes exactly as the caller supplied them.
    pub closed spec fn raw_spec(&self) -> Seq<u8> {
        self.raw@
    }

    /// A confined path always records a valid raw string whose lexical
    /// resolution is exactly the stored segments.
    pub open spec fn wf(&self) -> bool {
        &&& valid_raw(self.raw_spec())
        &&& lex_resolve(self.raw_spec()) == Some(self@)
    }

    /// The raw path as supplied, to be echoed back to the caller.
    pub fn raw(&self) -> (r: &Vec<u8>)
        ensures
            r@ == self.raw_spec(),
    {
        &self.raw
    }

    /// The resolved segments, relative to the sandbox root.
    pub fn segments(&self) -> (r: &Vec<Vec<u8>>)
        ensures
            segs_view(r@) == self@,
    {
        &self.segs
    }

    /// Gives the resolved segments up, consuming the path.
    pub fn into_segments(self) -> (r: Vec<Vec<u8>>)
        ensures
            segs_view(r@) == self@,
    {
        self.segs
    }
}

/// Byte-for-byte equality of two segments.
pub fn seg_eq(a: &Vec<u8>, b: &Vec<u8>) -> (r: bool)
    ensures
        r == (a@ == b@),
{
    if a.len() != b.len() {
        assert(a@ != b@);
        return false;
    }
    let n: usize = a.len();
    let mut i: usize = 0;
    while i < n
        invariant
            i <= n,
            n == a@.len() == b@.len(),
            forall|j: int| 0 <= j < i ==> a@[j] == b@[j],
        decreases n - i,
    {
        if a[i] != b[i] {
            return false;
        }
        i += 1;
    }
    assert(a@ =~= b@);
    true
}

/// Segment-for-segment equality of two segment paths.
pub fn path_eq(a: &Vec<Vec<u8>>, b: &Vec<Vec<u8>>) -> (r: bool)
    ensures
        r == (segs_view(a@) == segs_view(b@)),
{
    if a.len() != b.len() {
        assert(segs_view(a@).len() == a@.len());
        assert(segs_view(b@).len() == b@.len());
        assert(segs_view(a@) != segs_view(b@));
        return false;
    }
    let n: usize = a.len();
    let mut i: usize = 0;
    while i < n
        invariant
            i <= n,
            n == a@.len() == b@.len(),
            forall|j: int| 0 <= j < i ==> a@[j]@ == b@[j]@,
        decreases n - i,
    {
        if !seg_eq(&a[i], &b[i]) {
            assert(segs_view(a@)[i as int] != segs_view(b@)[i as int]);
            return false;
        }
        i += 1;
    }
    assert(segs_view(a@) =~= segs_view(b@));
    true
}

fn is_dot(s: &Vec<u8>) -> (r: bool)
    ensures
        r == (s@ == seg_dot()),
{
    if s.len() == 1 && s[0] == 46 {
        assert(s@ =~= seg_dot());
        true
    } else {
        assert(s@ != seg_dot());
        false
    }
}

fn is_dotdot(s: &Vec<u8>) -> (r: bool)
    ensures
        r == (s@ == seg_dotdot()),
{
    if s.len() == 2 && s[0] == 46 && s[1] == 46 {
        assert(s@ =~= seg_dotdot());
        true
    } else {
        assert(s@ != seg_dotdot());
        false
    }
}

/// Splits a raw byte path on `/`, empty segments included.
fn split_path(raw: &Vec<u8>) -> (r: Vec<Vec<u8>>)
    ensures
        segs_view(r@) == split_segs(raw@),
{
    let ghost full = raw@;
    let mut out: Vec<Vec<u8>> = Vec::new();
    let mut cur: Vec<u8> = Vec::new();
    let mut i: usize = 0;
    while i < raw.len()
        invariant
            i <= raw@.len(),
            raw@ == full,
            segs_view(out@).push(cur@) == split_segs(full.take(i as int)),
        decreases raw@.len() - i,
    {
        let ghost pre = full.take(i as int);
        let ghost pre1 = full.take(i + 1 as int);
        assert(pre1.drop_last() =~= pre);
        assert(pre1.last() == full[i as int]);
        let c = raw[i];
        if c == 47 {
            assert(split_segs(pre1) == split_segs(pre).push(Seq::<u8>::empty()));
            let ghost ov = out@;
            out.push(cur);
            proof {
                lemma_segs_view_push(ov, cur);
            }
            cur = Vec::new();
            assert(segs_view(out@).push(cur@) =~= split_segs(pre).push(Seq::<u8>::empty()));
        } else {
            proof {
                lemma_split_segs_len(pre);
            }
            let ghost s = split_segs(pre);
            assert(split_segs(pre1) == s.update(s.len() - 1, s.last().push(c)));
            assert(s.last() == cur@);
            cur.push(c);
            assert(segs_view(out@).push(cur@) =~= s.update(s.len() - 1, s.last().push(c)));
        }
        i += 1;
    }
    assert(full.take(full.len() as int) =~= full);
    let ghost ov = out@;
    out.push(cur);
    proof {
        lemma_segs_view_push(ov, cur);
    }
    out
}

/// Validates a raw byte path and resolves it lexically against the
/// sandbox root.
///
/// The outcome is exactly `resolve_spec`: `InvalidPath` for an empty
/// path or one holding NUL, `PathEscape` whenever the `.`/`..` folding
/// pops past the root, and otherwise the confined path whose view is the
/// resolved segment sequence.
pub fn resolve(raw: &Vec<u8>) -> (r: Result<ConfinedPath, FsError>)
    ensures
        match r {
            Ok(p) => {
                &&& p.wf()
                &&& p.raw_spec() == raw@
                &&& resolve_spec(raw@) == Ok::<Seq<Seq<u8>>, FsError>(p@)
            },
            Err(e) => resolve_spec(raw@) == Err::<Seq<Seq<u8>>, FsError>(e),
        },
{
    if raw.len() == 0 {
        return Err(FsError::InvalidPath);
    }
    let n: usize = raw.len();
    let mut i: usize = 0;
    while i < n
        invariant
            i <= n,
            n == raw@.len(),
            forall|j: int| 0 <= j < i ==> raw@[j] != 0u8,
        decreases n - i,
    {
        if raw[i] == 0 {
            return Err(FsError::InvalidPath);
        }
        i += 1;
    }
    assert(valid_raw(raw@));
    let segs_raw = split_path(raw);
    let ghost all = segs_view(segs_raw@);
    let mut stack: Vec<Vec<u8>> = Vec::new();
    assert(segs_view(stack@) =~= Seq::<Seq<u8>>::empty());
    assert(all.skip(0) =~= all);
    let mut k: usize = 0;
    while k < segs_raw.len()
        invariant
            k <= segs_raw@.len(),
            segs_view(segs_raw@) == all,
            all == split_segs(raw@),
            valid_raw(raw@),
            lex_resolve(raw@) == resolve_from(segs_view(stack@), all.skip(k as int)),
        decreases segs_raw@.len() - k,
    {
        let ghost rest = all.skip(k as int);
        assert(rest.len() > 0);
        assert(rest.first() == all[k as int]);
        assert(rest.drop_first() =~= all.skip(k + 1 as int));
        assert(all[k as int] == segs_raw@[k as int]@);
        let s = &segs_raw[k];
        if s.len() == 0 || is_dot(s) {
            assert(resolve_from(segs_view(stack@), rest) == resolve_from(
                segs_view(stack@),
                rest.drop_first(),
            ));
        } else if is_dotdot(s) {
            if stack.len() == 0 {
                assert(segs_view(stack@).len() == 0);
                assert(resolve_from(segs_view(stack@), rest) is None);
                return Err(FsError::PathEscape);
            }
            let ghost sv = stack@;
            stack.pop();
            assert(stack@ =~= sv.drop_last());
            proof {
                lemma_segs_view_drop_last(sv);
            }
        } else {
            let ghost sv = stack@;
            let seg = s.clone();
            assert(seg@ == all[k as int]);
            stack.push(seg);
            proof {
                lemma_segs_view_push(sv, seg);
            }
        }
        k += 1;
    }
    assert(all.skip(all.len() as int) =~= Seq::<Seq<u8>>::empty());
    assert(lex_resolve(raw@) == Some(segs_view(stack@)));
    let p = ConfinedPath { raw: raw.clone(), segs: stack };
    assert(p.wf());
    Ok(p)
}

/// The absolute form of a resolved path: the sandbox root's own
/// segments followed by the confined segments.
pub open spec fn abs_of(root: Seq<Seq<u8>>, rel: Seq<Seq<u8>>) -> Seq<Seq<u8>> {
    root + rel
}

/// `p` lies at or below `root`.
pub open spec fn is_descendant_of(p: Seq<Seq<u8>>, root: Seq<Seq<u8>>) -> bool {
    p.len() >= root.len() && p.take(root.len() as int) == root
}

/// Confinement: a raw path whose lexical folding escapes the root is
/// rejected with `PathEscape`, and every raw path that resolves at all
/// resolves to an absolute path that is a descendant of (or equal to)
/// the sandbox root — whatever the root is.
pub proof fn lemma_confinement(root: Seq<Seq<u8>>, raw: Seq<u8>)
    ensures
        valid_raw(raw) && lex_resolve(raw) is None ==> resolve_spec(raw) == Err::<Seq<Seq<u8>>,
            FsError>(FsError::PathEscape),
        forall|p: Seq<Seq<u8>>|
            resolve_spec(raw) == Ok::<Seq<Seq<u8>>, FsError>(p) ==> is_descendant_of(
                abs_of(root, p),
                root,
            ),
{
    assert forall|p: Seq<Seq<u8>>|
        resolve_spec(raw) == Ok::<Seq<Seq<u8>>, FsError>(p) implies is_descendant_of(
        abs_of(root, p),
        root,
    ) by {
        assert((root + p).take(root.len() as int) =~= root);
    }
}

} // verus!
