//! Recursive subtree measurement.
//!
//! A subtree is measured by an explicit depth-first walk: the engine keeps a
//! stack of directories still to read, and the caller, which owns the actual
//! filesystem access, reads one pending directory at a time and hands the
//! observed children back as plain values. Every decision — what counts as
//! an item, what contributes bytes, what is recursed into, what is skipped —
//! is made and verified here. A directory that cannot be read contributes an
//! empty listing, so an unreadable subtree measures as zero rather than as
//! an error.

use vstd::prelude::*;

verus! {

/// What the symlink-aware metadata read said about one child of a directory
/// being measured.
#[derive(Clone, Copy)]
pub enum ChildKind {
    /// A real directory (not a symlink to one): it will be recursed into.
    Dir,
    /// A regular file with its byte length.
    File(u64),
    /// Any other type: symlink, device, socket, junction.
    Other,
    /// The metadata read itself failed.
    Unreadable,
}

/// One child observed while reading a directory during the walk.
pub struct ChildRecord {
    /// Absolute path of the child; a directory child is recursed into by
    /// this path.
    pub path: String,
    pub kind: ChildKind,
}

/// The result of measuring one subtree: total bytes of all reachable
/// regular files and the count of all reachable entries, the root excluded.
pub struct FolderSize {
    pub size: u64,
    pub item_count: u64,
}

/// Saturation of a mathematical total at the largest unsigned 64-bit value.
pub open spec fn sat64(x: int) -> int {
    if x > u64::MAX {
        u64::MAX as int
    } else {
        x
    }
}

/// What one child adds to the item count: one for every child whose
/// metadata could be read, of whatever type, and nothing for the rest.
pub open spec fn child_tally(k: ChildKind) -> int {
    match k {
        ChildKind::Unreadable => 0,
        _ => 1,
    }
}

/// What one child adds to the byte total: a regular file contributes its
/// length, everything else contributes nothing.
pub open spec fn child_bytes(k: ChildKind) -> int {
    match k {
        ChildKind::File(n) => n as int,
        _ => 0,
    }
}

/// Items contributed by one observed listing.
pub open spec fn tally_of(children: Seq<ChildRecord>) -> int
    decreases children.len(),
{
    if children.len() == 0 {
        0
    } else {
        tally_of(children.drop_last()) + child_tally(children.last().kind)
    }
}

/// Bytes contributed by one observed listing.
pub open spec fn bytes_of(children: Seq<ChildRecord>) -> int
    decreases children.len(),
{
    if children.len() == 0 {
        0
    } else {
        bytes_of(children.drop_last()) + child_bytes(children.last().kind)
    }
}

/// The paths of the real directories in one observed listing, in listing
/// order: exactly these, and nothing else, are walked into.
pub open spec fn dir_paths(children: Seq<ChildRecord>) -> Seq<Seq<char>>
    decreases children.len(),
{
    if children.len() == 0 {
        Seq::empty()
    } else {
        dir_paths(children.drop_last()) + (if children.last().kind is Dir {
            seq![children.last().path@]
        } else {
            Seq::empty()
        })
    }
}

/// The mathematical state of one walk: directories still to read, and the
/// totals gathered so far.
#[verifier::ext_equal]
pub struct ScanModel {
    pub pending: Seq<Seq<char>>,
    pub size: int,
    pub count: int,
}

/// A walk starts with only the requested root pending and nothing measured.
pub open spec fn scan_init(root: Seq<char>) -> ScanModel {
    ScanModel { pending: seq![root], size: 0, count: 0 }
}

/// Taking the next directory to read removes it from the pending stack and
/// changes no total.
pub open spec fn scan_after_pop(m: ScanModel) -> ScanModel
    recommends
        m.pending.len() > 0,
{
    ScanModel { pending: m.pending.drop_last(), size: m.size, count: m.count }
}

/// Absorbing one observed listing adds its items and bytes to the totals,
/// saturating at the largest unsigned 64-bit value, and queues exactly the
/// real directories among the children for the rest of the walk.
pub open spec fn scan_absorb(m: ScanModel, children: Seq<ChildRecord>) -> ScanModel {
    ScanModel {
        pending: m.pending + dir_paths(children),
        size: sat64(m.size + bytes_of(children)),
        count: sat64(m.count + tally_of(children)),
    }
}

/// A walk in progress. The caller repeatedly asks for the next pending
/// directory, reads it, and hands the observed children back, until nothing
/// is pending; the totals are then the measure of the whole subtree.
pub struct SizeScan {
    pending: Vec<String>,
    size: u64,
    count: u64,
}

impl View for SizeScan {
    type V = ScanModel;

    closed spec fn view(&self) -> ScanModel {
        ScanModel {
            pending: self.pending.deep_view(),
            size: self.size as int,
            count: self.count as int,
        }
    }
}

/// Unsigned 64-bit addition that saturates instead of wrapping.
fn add_sat(a: u64, b: u64) -> (r: u64)
    ensures
        r as int == sat64(a as int + b as int),
{
    if a <= u64::MAX - b {
        a + b
    } else {
        u64::MAX
    }
}

impl SizeScan {
    /// Starts a walk of the subtree rooted at `root`.
    pub fn new(root: String) -> (s: SizeScan)
        ensures
            s@ == scan_init(root@),
    {
        let mut pending: Vec<String> = Vec::new();
        pending.push(root);
        let s = SizeScan { pending, size: 0, count: 0 };
        proof {
            assert(s@.pending =~= seq![root@]);
            assert(s@ =~= scan_init(root@));
        }
        s
    }

    /// Hands out the next directory the walk still has to read, or `None`
    /// when the walk is complete. The totals are untouched.
    pub fn next_dir(&mut self) -> (r: Option<String>)
        ensures
            match r {
                Option::None => old(self)@.pending.len() == 0 && final(self)@ == old(self)@,
                Option::Some(p) => old(self)@.pending.len() > 0 && p@ == old(
                    self,
                )@.pending.last() && final(self)@ == scan_after_pop(old(self)@),
            },
    {
        let r = self.pending.pop();
        proof {
            if old(self).pending@.len() > 0 {
                assert(self@.pending =~= old(self)@.pending.drop_last());
                assert(self@ =~= scan_after_pop(old(self)@));
            } else {
                assert(self@.pending =~= old(self)@.pending);
                assert(self@ =~= old(self)@);
            }
        }
        r
    }

    /// Absorbs what one directory read observed: every readable child
    /// counts as one item, regular files contribute their bytes, real
    /// directories are queued to be read in turn, and nothing else is ever
    /// queued. An unreadable directory is absorbed as an empty listing.
    pub fn absorb_listing(&mut self, children: &Vec<ChildRecord>)
        ensures
            final(self)@ == scan_absorb(old(self)@, children@),
    {
        let n: usize = children.len();
        let mut idx: usize = 0;
        while idx < n
            invariant
                n == children@.len(),
                idx <= n,
                self.size as int == sat64(old(self).size as int + bytes_of(
                    children@.take(idx as int),
                )),
                self.count as int == sat64(old(self).count as int + tally_of(
                    children@.take(idx as int),
                )),
                self.pending.deep_view() == old(self).pending.deep_view() + dir_paths(
                    children@.take(idx as int),
                ),
            decreases n - idx,
        {
            let ghost prefix = children@.take(idx as int);
            let ghost longer = children@.take(idx as int + 1);
            proof {
                assert(longer.drop_last() =~= prefix);
                assert(longer.last() == children@[idx as int]);
                lemma_tally_nonneg(prefix);
                lemma_bytes_nonneg(prefix);
            }
            match children[idx].kind {
                ChildKind::Unreadable => {
                    proof {
                        assert(dir_paths(longer) =~= dir_paths(prefix));
                    }
                },
                ChildKind::Other => {
                    self.count = add_sat(self.count, 1);
                    proof {
                        assert(dir_paths(longer) =~= dir_paths(prefix));
                    }
                },
                ChildKind::File(len) => {
                    self.count = add_sat(self.count, 1);
                    self.size = add_sat(self.size, len);
                    proof {
                        assert(dir_paths(longer) =~= dir_paths(prefix));
                    }
                },
                ChildKind::Dir => {
                    self.count = add_sat(self.count, 1);
                    let ghost pre = self.pending.deep_view();
                    self.pending.push(children[idx].path.clone());
                    proof {
                        assert(self.pending.deep_view() =~= pre + seq![
                            children@[idx as int].path@,
                        ]);
                        assert(dir_paths(longer) =~= dir_paths(prefix) + seq![
                            children@[idx as int].path@,
                        ]);
                        assert(self.pending.deep_view() =~= old(self).pending.deep_view()
                            + dir_paths(longer));
                    }
                },
            }
            idx = idx + 1;
        }
        proof {
            assert(children@.take(n as int) =~= children@);
            assert(self@ =~= scan_absorb(old(self)@, children@));
        }
    }

    /// True when no directory is left to read: the walk is complete.
    pub fn done(&self) -> (r: bool)
        ensures
            r == (self@.pending.len() == 0),
    {
        self.pending.len() == 0
    }

    /// The totals gathered so far; once the walk is complete, the measure
    /// of the subtree.
    pub fn result(&self) -> (r: FolderSize)
        ensures
            r.size as int == self@.size,
            r.item_count as int == self@.count,
    {
        FolderSize { size: self.size, item_count: self.count }
    }
}

/// An empty listing contributes no items, no bytes, and no directories to
/// read.
pub proof fn lemma_empty_listing()
    ensures
        tally_of(Seq::<ChildRecord>::empty()) == 0,
        bytes_of(Seq::<ChildRecord>::empty()) == 0,
        dir_paths(Seq::<ChildRecord>::empty()) =~= Seq::<Seq<char>>::empty(),
{
}

/// What a listing of one child contributes: the child's own tally and
/// bytes, and its path as a directory to read exactly when it is one.
pub proof fn lemma_singleton_listing(c: ChildRecord)
    ensures
        tally_of(seq![c]) == child_tally(c.kind),
        bytes_of(seq![c]) == child_bytes(c.kind),
        c.kind is Dir ==> dir_paths(seq![c]) =~= seq![c.path@],
        !(c.kind is Dir) ==> dir_paths(seq![c]) =~= Seq::<Seq<char>>::empty(),
{
    let s = seq![c];
    lemma_empty_listing();
    assert(s.last() == c);
    assert(s.drop_last() =~= Seq::<ChildRecord>::empty());
}

/// Measuring a root that does not exist or cannot be read yields zero bytes
/// and zero items: the failed root read is absorbed as an empty listing, the
/// walk ends at once, and both totals are still zero. No error is involved.
pub proof fn lemma_unreadable_root(root: Seq<char>)
    ensures
        ({
            let end = scan_absorb(scan_after_pop(scan_init(root)), Seq::empty());
            end.pending.len() == 0 && end.size == 0 && end.count == 0
        }),
{
    let start = scan_init(root);
    lemma_empty_listing();
    assert(scan_after_pop(start).pending =~= Seq::<Seq<char>>::empty());
    let end = scan_absorb(scan_after_pop(start), Seq::empty());
    assert(end.pending =~= Seq::<Seq<char>>::empty());
}

/// A directory holding only regular files, and no subdirectories, measures
/// as exactly the sum of the file lengths and as one item per file: after
/// the root's one listing is absorbed, nothing is pending and the totals
/// are final.
pub proof fn lemma_flat_directory(root: Seq<char>, children: Seq<ChildRecord>)
    requires
        forall|i: int| 0 <= i < children.len() ==> (#[trigger] children[i].kind) is File,
        bytes_of(children) <= u64::MAX,
        children.len() <= u64::MAX,
    ensures
        ({
            let end = scan_absorb(scan_after_pop(scan_init(root)), children);
            end.pending.len() == 0 && end.size == bytes_of(children) && end.count
                == children.len()
        }),
{
    lemma_all_files_measure(children);
    lemma_bytes_nonneg(children);
    assert(scan_after_pop(scan_init(root)).pending =~= Seq::<Seq<char>>::empty());
    let end = scan_absorb(scan_after_pop(scan_init(root)), children);
    assert(end.pending =~= dir_paths(children));
}

/// In a listing of regular files only, every file counts as one item, the
/// byte total is the sum of the file lengths, and nothing is queued for
/// further reading.
pub proof fn lemma_all_files_measure(children: Seq<ChildRecord>)
    requires
        forall|i: int| 0 <= i < children.len() ==> (#[trigger] children[i].kind) is File,
    ensures
        tally_of(children) == children.len(),
        dir_paths(children).len() == 0,
    decreases children.len(),
{
    if children.len() > 0 {
        assert(children[children.len() - 1].kind is File);
        lemma_all_files_measure(children.drop_last());
    }
}

/// A directory holding one subdirectory, which in turn holds one regular
/// file of length `s`, measures as `s` bytes and two items: the
/// subdirectory itself and the file inside it.
pub proof fn lemma_nested_subtree(root: Seq<char>, sub: ChildRecord, file: ChildRecord, s: u64)
    requires
        sub.kind is Dir,
        file.kind == ChildKind::File(s),
    ensures
        ({
            let after_root = scan_absorb(scan_after_pop(scan_init(root)), seq![sub]);
            let end = scan_absorb(scan_after_pop(after_root), seq![file]);
            after_root.pending.last() == sub.path@ && end.pending.len() == 0 && end.size == s
                && end.count == 2
        }),
{
    lemma_singleton_listing(sub);
    lemma_singleton_listing(file);
    assert(scan_after_pop(scan_init(root)).pending =~= Seq::<Seq<char>>::empty());
    let after_root = scan_absorb(scan_after_pop(scan_init(root)), seq![sub]);
    assert(after_root.pending =~= seq![sub.path@]);
    assert(scan_after_pop(after_root).pending =~= Seq::<Seq<char>>::empty());
    let end = scan_absorb(scan_after_pop(after_root), seq![file]);
    assert(end.pending =~= Seq::<Seq<char>>::empty());
}

/// A symlink (or any other non-file, non-directory child) observed during a
/// walk contributes exactly one item and zero bytes, and its target is never
/// queued, so the walk never recurses into it.
pub proof fn lemma_symlink_never_entered(m: ScanModel, link: ChildRecord)
    requires
        link.kind is Other,
        0 <= m.size <= u64::MAX,
        0 <= m.count <= u64::MAX,
    ensures
        ({
            let end = scan_absorb(m, seq![link]);
            end.pending == m.pending && end.size == m.size && end.count == sat64(m.count + 1)
        }),
{
    lemma_singleton_listing(link);
    let end = scan_absorb(m, seq![link]);
    assert(end.pending =~= m.pending);
}

/// A listing never contributes a negative item count, and never more items
/// than it has children.
pub proof fn lemma_tally_nonneg(children: Seq<ChildRecord>)
    ensures
        0 <= tally_of(children) <= children.len(),
    decreases children.len(),
{
    if children.len() > 0 {
        lemma_tally_nonneg(children.drop_last());
    }
}

/// A listing never contributes a negative byte total.
pub proof fn lemma_bytes_nonneg(children: Seq<ChildRecord>)
    ensures
        0 <= bytes_of(children),
    decreases children.len(),
{
    if children.len() > 0 {
        lemma_bytes_nonneg(children.drop_last());
    }
}

} // verus!
