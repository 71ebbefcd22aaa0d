//! Fast, non-recursive directory listing.
//!
//! The caller opens the directory and reads each child's metadata without
//! following symlinks; what it observed comes in as plain `RawChild` values.
//! The verified logic here classifies the children, drops what the listing
//! policy skips, fills in the placeholder fields, and orders the result:
//! directories before files, each group sorted case-insensitively by name.

use vstd::multiset::Multiset;
use vstd::prelude::*;

verus! {

/// What the symlink-aware metadata read said about one directory child
/// during the fast listing.
#[derive(Clone, Copy)]
pub enum RawKind {
    /// A real directory, with its direct child count: the plain, unfiltered
    /// number of entries a listing of that child yields (symlinks included),
    /// or zero if that secondary listing failed.
    Dir(u64),
    /// A regular file with its byte length.
    File(u64),
    /// Any other type: symlink, device, socket, junction. Skipped.
    Other,
    /// The metadata read itself failed. Skipped.
    Unreadable,
}

/// One child of the listed directory, as observed by the caller.
pub struct RawChild {
    /// Base name of the child, as the operating system presented it.
    pub name: String,
    /// Absolute path of the child.
    pub path: String,
    pub kind: RawKind,
}

/// One entry of the finished listing.
pub struct FsEntry {
    pub name: String,
    pub path: String,
    /// Real byte length for a file; the `0` placeholder for a directory,
    /// to be filled in later by a recursive measurement.
    pub size: u64,
    pub is_dir: bool,
    /// For a directory: its direct, non-recursive child count. For a file: `0`.
    pub item_count: u64,
}

/// The UTF-8 bytes of the Unicode lowercasing of a name; the key under
/// which entries of the same kind are ordered. Lexicographic order on these
/// bytes coincides with lexicographic order on the lowercased characters.
pub uninterp spec fn lower_of(s: Seq<char>) -> Seq<u8>;

/// Relies on str::to_lowercase of std: Unicode lowercasing, a function of
/// the characters alone; the result is handed back as its UTF-8 bytes.
#[verifier::external_body]
fn lower_key(s: &str) -> (r: Vec<u8>)
    ensures
        r@ == lower_of(s@),
{
    s.to_lowercase().into_bytes()
}

/// Lexicographic order on byte strings: the empty string first, then by the
/// first differing byte; a proper prefix comes before what extends it.
pub open spec fn lex_le(a: Seq<u8>, b: Seq<u8>) -> bool
    decreases a.len(),
{
    if a.len() == 0 {
        true
    } else if b.len() == 0 {
        false
    } else if a.first() < b.first() {
        true
    } else if a.first() > b.first() {
        false
    } else {
        lex_le(a.drop_first(), b.drop_first())
    }
}

/// Of two byte strings, at least one comes no later than the other.
pub proof fn lemma_lex_le_total(a: Seq<u8>, b: Seq<u8>)
    ensures
        lex_le(a, b) || lex_le(b, a),
    decreases a.len(),
{
    if a.len() > 0 && b.len() > 0 && a.first() == b.first() {
        lemma_lex_le_total(a.drop_first(), b.drop_first());
    }
}

/// Lexicographic order is transitive.
pub proof fn lemma_lex_le_trans(a: Seq<u8>, b: Seq<u8>, c: Seq<u8>)
    requires
        lex_le(a, b),
        lex_le(b, c),
    ensures
        lex_le(a, c),
    decreases a.len(),
{
    if a.len() > 0 && b.len() > 0 && c.len() > 0 && a.first() == b.first() && b.first()
        == c.first() {
        lemma_lex_le_trans(a.drop_first(), b.drop_first(), c.drop_first());
    }
}

/// Decides `lex_le` on two byte strings.
fn lex_le_bytes(a: &Vec<u8>, b: &Vec<u8>) -> (r: bool)
    ensures
        r == lex_le(a@, b@),
{
    let mut i: usize = 0;
    proof {
        assert(a@.skip(0) =~= a@);
        assert(b@.skip(0) =~= b@);
    }
    while i < a.len() && i < b.len()
        invariant
            i <= a@.len(),
            i <= b@.len(),
            lex_le(a@, b@) == lex_le(a@.skip(i as int), b@.skip(i as int)),
        decreases a@.len() - i,
    {
        if a[i] < b[i] {
            assert(a@.skip(i as int).first() == a@[i as int]);
            assert(b@.skip(i as int).first() == b@[i as int]);
            return true;
        }
        if a[i] > b[i] {
            assert(a@.skip(i as int).first() == a@[i as int]);
            assert(b@.skip(i as int).first() == b@[i as int]);
            return false;
        }
        proof {
            assert(a@.skip(i as int).first() == a@[i as int]);
            assert(b@.skip(i as int).first() == b@[i as int]);
            assert(a@.skip(i as int).drop_first() =~= a@.skip(i as int + 1));
            assert(b@.skip(i as int).drop_first() =~= b@.skip(i as int + 1));
        }
        i = i + 1;
    }
    proof {
        if i == a@.len() {
            assert(a@.skip(i as int) =~= Seq::<u8>::empty());
        } else {
            assert(b@.skip(i as int) =~= Seq::<u8>::empty());
            assert(a@.skip(i as int).len() > 0);
        }
    }
    i == a.len()
}

/// The listing order: directories come before files, and entries of the
/// same kind are ordered by the lowercasing of their names.
pub open spec fn entry_le(a: FsEntry, b: FsEntry) -> bool {
    if a.is_dir != b.is_dir {
        a.is_dir
    } else {
        lex_le(lower_of(a.name@), lower_of(b.name@))
    }
}

/// A finished listing is sorted: every entry comes no later than each entry
/// after it.
pub open spec fn sorted_entries(s: Seq<FsEntry>) -> bool {
    forall|i: int, j: int| 0 <= i < j < s.len() ==> entry_le(#[trigger] s[i], #[trigger] s[j])
}

/// Of two entries, at least one comes no later than the other.
pub proof fn lemma_entry_le_total(a: FsEntry, b: FsEntry)
    ensures
        entry_le(a, b) || entry_le(b, a),
{
    if a.is_dir == b.is_dir {
        lemma_lex_le_total(lower_of(a.name@), lower_of(b.name@));
    }
}

/// The listing order is transitive.
pub proof fn lemma_entry_le_trans(a: FsEntry, b: FsEntry, c: FsEntry)
    requires
        entry_le(a, b),
        entry_le(b, c),
    ensures
        entry_le(a, c),
{
    if a.is_dir == b.is_dir && b.is_dir == c.is_dir {
        lemma_lex_le_trans(lower_of(a.name@), lower_of(b.name@), lower_of(c.name@));
    }
}

/// The shape the listing policy gives every entry it keeps: a directory
/// carries the `0` placeholder size, a file carries no child count.
pub open spec fn wf_listed(e: FsEntry) -> bool {
    &&& e.is_dir ==> e.size == 0
    &&& !e.is_dir ==> e.item_count == 0
}

/// What one observed child contributes to the listing: a directory becomes
/// an entry with placeholder size and its direct child count, a file
/// becomes an entry with its real length, and everything else — symlinks,
/// devices, sockets, unreadable children — is skipped entirely.
pub open spec fn listed_of(c: RawChild) -> Seq<FsEntry> {
    match c.kind {
        RawKind::Dir(n) => seq![
            FsEntry { name: c.name, path: c.path, size: 0, is_dir: true, item_count: n },
        ],
        RawKind::File(n) => seq![
            FsEntry { name: c.name, path: c.path, size: n, is_dir: false, item_count: 0 },
        ],
        RawKind::Other => Seq::empty(),
        RawKind::Unreadable => Seq::empty(),
    }
}

/// The entries the listing keeps, in observation order, before sorting.
pub open spec fn entries_of(raw: Seq<RawChild>) -> Seq<FsEntry>
    decreases raw.len(),
{
    if raw.len() == 0 {
        Seq::empty()
    } else {
        entries_of(raw.drop_last()) + listed_of(raw.last())
    }
}

/// A directory child is kept as exactly one entry, marked as a directory,
/// with the placeholder size and with the direct child count the caller
/// observed for it — the plain, unfiltered count of entries under it.
pub proof fn lemma_dir_item_count(c: RawChild, n: u64)
    requires
        c.kind == RawKind::Dir(n),
    ensures
        listed_of(c).len() == 1,
        listed_of(c)[0].is_dir,
        listed_of(c)[0].size == 0,
        listed_of(c)[0].item_count == n,
        listed_of(c)[0].name == c.name,
        listed_of(c)[0].path == c.path,
{
}

/// Each kept entry's sort key is the lowercasing of its name.
spec fn keys_match(entries: Seq<FsEntry>, keys: Seq<Vec<u8>>) -> bool {
    entries.len() == keys.len() && forall|i: int|
        0 <= i < entries.len() ==> (#[trigger] keys[i])@ == lower_of(entries[i].name@)
}

/// Decides the listing order between two entries, given their sort keys.
fn entry_le_exec(a: &FsEntry, ka: &Vec<u8>, b: &FsEntry, kb: &Vec<u8>) -> (r: bool)
    requires
        ka@ == lower_of(a.name@),
        kb@ == lower_of(b.name@),
    ensures
        r == entry_le(*a, *b),
{
    if a.is_dir != b.is_dir {
        a.is_dir
    } else {
        lex_le_bytes(ka, kb)
    }
}

/// Inserts one kept entry, with its sort key, at its place in an already
/// sorted listing.
fn insert_entry_sorted(entries: &mut Vec<FsEntry>, keys: &mut Vec<Vec<u8>>, e: FsEntry, k: Vec<u8>)
    requires
        keys_match(old(entries)@, old(keys)@),
        k@ == lower_of(e.name@),
        sorted_entries(old(entries)@),
        forall|i: int| 0 <= i < old(entries)@.len() ==> wf_listed(#[trigger] old(entries)@[i]),
        wf_listed(e),
    ensures
        keys_match(final(entries)@, final(keys)@),
        sorted_entries(final(entries)@),
        final(entries)@.to_multiset() == old(entries)@.to_multiset().insert(e),
        forall|i: int|
            0 <= i < final(entries)@.len() ==> wf_listed(#[trigger] final(entries)@[i]),
{
    let mut p: usize = 0;
    while p < entries.len() && entry_le_exec(&entries[p], &keys[p], &e, &k)
        invariant
            p <= entries@.len(),
            entries@ == old(entries)@,
            keys@ == old(keys)@,
            keys_match(entries@, keys@),
            k@ == lower_of(e.name@),
            forall|i: int| 0 <= i < p ==> entry_le(#[trigger] entries@[i], e),
        decreases entries@.len() - p,
    {
        p = p + 1;
    }
    let ghost old_entries = entries@;
    let ghost old_keys = keys@;
    let ghost pos = p as int;
    proof {
        if pos < old_entries.len() {
            lemma_entry_le_total(old_entries[pos], e);
            assert(entry_le(e, old_entries[pos]));
        }
    }
    entries.insert(p, e);
    keys.insert(p, k);
    proof {
        old_entries.insert_ensures(pos, e);
        old_keys.insert_ensures(pos, k);
        vstd::seq_lib::to_multiset_insert(old_entries, pos, e);
        assert forall|i: int, j: int|
            0 <= i < j < entries@.len() implies entry_le(
            #[trigger] entries@[i],
            #[trigger] entries@[j],
        ) by {
            if j < pos {
                assert(entries@[i] == old_entries[i]);
                assert(entries@[j] == old_entries[j]);
            } else if i < pos && j == pos {
                assert(entries@[i] == old_entries[i]);
            } else if i == pos && j > pos {
                assert(entries@[j] == old_entries[j - 1]);
                if j - 1 > pos {
                    lemma_entry_le_trans(e, old_entries[pos], old_entries[j - 1]);
                }
            } else if i < pos && j > pos {
                assert(entries@[i] == old_entries[i]);
                assert(entries@[j] == old_entries[j - 1]);
            } else {
                assert(entries@[i] == old_entries[i - 1]);
                assert(entries@[j] == old_entries[j - 1]);
            }
        };
    }
}

/// Turns what the caller observed in one directory into the finished
/// listing: children the policy skips are dropped, directories get the
/// placeholder size and their direct child count, files get their real
/// length, and the result is ordered with directories before files and
/// each group sorted case-insensitively by name.
pub fn build_listing(raw: &Vec<RawChild>) -> (out: Vec<FsEntry>)
    ensures
        out@.to_multiset() == entries_of(raw@).to_multiset(),
        sorted_entries(out@),
        forall|i: int| 0 <= i < out@.len() ==> wf_listed(#[trigger] out@[i]),
{
    let mut entries: Vec<FsEntry> = Vec::new();
    let mut keys: Vec<Vec<u8>> = Vec::new();
    let n: usize = raw.len();
    let mut idx: usize = 0;
    proof {
        assert(raw@.take(0) =~= Seq::<RawChild>::empty());
        assert(entries@.to_multiset() =~= entries_of(raw@.take(0)).to_multiset());
    }
    while idx < n
        invariant
            n == raw@.len(),
            idx <= n,
            keys_match(entries@, keys@),
            sorted_entries(entries@),
            entries@.to_multiset() == entries_of(raw@.take(idx as int)).to_multiset(),
            forall|i: int| 0 <= i < entries@.len() ==> wf_listed(#[trigger] entries@[i]),
        decreases n - idx,
    {
        let ghost prefix = raw@.take(idx as int);
        let ghost longer = raw@.take(idx as int + 1);
        let ghost pre_multiset = entries@.to_multiset();
        proof {
            assert(longer.drop_last() =~= prefix);
            assert(longer.last() == raw@[idx as int]);
            vstd::seq_lib::lemma_multiset_commutative(entries_of(prefix), listed_of(raw@[idx as int]));
        }
        let c = &raw[idx];
        match c.kind {
            RawKind::Dir(count) => {
                let e = FsEntry {
                    name: c.name.clone(),
                    path: c.path.clone(),
                    size: 0,
                    is_dir: true,
                    item_count: count,
                };
                let key = lower_key(c.name.as_str());
                proof {
                    assert(listed_of(raw@[idx as int])[0] == e);
                    assert(listed_of(raw@[idx as int]).to_multiset() =~= Multiset::<
                        FsEntry,
                    >::empty().insert(e)) by {
                        let single = listed_of(raw@[idx as int]);
                        single.to_multiset_ensures();
                        assert(single =~= Seq::<FsEntry>::empty().push(e));
                        Seq::<FsEntry>::empty().to_multiset_ensures();
                        assert(Seq::<FsEntry>::empty().to_multiset() =~= Multiset::<
                            FsEntry,
                        >::empty());
                    }
                }
                insert_entry_sorted(&mut entries, &mut keys, e, key);
                proof {
                    assert(entries@.to_multiset() =~= entries_of(longer).to_multiset());
                }
            },
            RawKind::File(len) => {
                let e = FsEntry {
                    name: c.name.clone(),
                    path: c.path.clone(),
                    size: len,
                    is_dir: false,
                    item_count: 0,
                };
                let key = lower_key(c.name.as_str());
                proof {
                    assert(listed_of(raw@[idx as int])[0] == e);
                    assert(listed_of(raw@[idx as int]).to_multiset() =~= Multiset::<
                        FsEntry,
                    >::empty().insert(e)) by {
                        let single = listed_of(raw@[idx as int]);
                        single.to_multiset_ensures();
                        assert(single =~= Seq::<FsEntry>::empty().push(e));
                        Seq::<FsEntry>::empty().to_multiset_ensures();
                        assert(Seq::<FsEntry>::empty().to_multiset() =~= Multiset::<
                            FsEntry,
                        >::empty());
                    }
                }
                insert_entry_sorted(&mut entries, &mut keys, e, key);
                proof {
                    assert(entries@.to_multiset() =~= entries_of(longer).to_multiset());
                }
            },
            RawKind::Other => {
                proof {
                    assert(listed_of(raw@[idx as int]).to_multiset() =~= Multiset::<
                        FsEntry,
                    >::empty()) by {
                        Seq::<FsEntry>::empty().to_multiset_ensures();
                    }
                    assert(entries@.to_multiset() =~= entries_of(longer).to_multiset());
                }
            },
            RawKind::Unreadable => {
                proof {
                    assert(listed_of(raw@[idx as int]).to_multiset() =~= Multiset::<
                        FsEntry,
                    >::empty()) by {
                        Seq::<FsEntry>::empty().to_multiset_ensures();
                    }
                    assert(entries@.to_multiset() =~= entries_of(longer).to_multiset());
                }
            },
        }
        idx = idx + 1;
    }
    proof {
        assert(raw@.take(n as int) =~= raw@);
    }
    entries
}

} // verus!
