//! Fuzzy matching algorithms of fuzzy indexes.
use vstd::prelude::*;
use crate::document::{DocIdView, DocumentId};
use crate::error::IronBaseError;
use crate::index::page::{le32, le32_value, le64, le64_value};
use crate::text::{concat2, decimal, lowercase, str_eq, to_lower, u64_text};

verus! {

/// String similarity algorithm of a fuzzy index.
#[derive(Debug, Clone, Copy, PartialEq, Eq, Structural)]
pub enum FuzzyAlgorithm {
    /// Jaro-Winkler similarity (the default): fast, good for names.
    JaroWinkler,
    /// Normalized Levenshtein distance.
    Levenshtein,
    /// Damerau-Levenshtein: edits plus transpositions.
    DamerauLevenshtein,
}

impl Default for FuzzyAlgorithm {
    fn default() -> (a: Self)
        ensures
            a == FuzzyAlgorithm::JaroWinkler,
    {
        FuzzyAlgorithm::JaroWinkler
    }
}

/// The algorithm a lower-cased name stands for.
pub open spec fn index_algorithm_named(l: Seq<char>) -> Option<FuzzyAlgorithm> {
    if l == "jaro_winkler"@ || l == "jarowinkler"@ {
        Some(FuzzyAlgorithm::JaroWinkler)
    } else if l == "levenshtein"@ {
        Some(FuzzyAlgorithm::Levenshtein)
    } else if l == "damerau_levenshtein"@ || l == "dameraulevenshtein"@ {
        Some(FuzzyAlgorithm::DamerauLevenshtein)
    } else {
        None
    }
}

impl FuzzyAlgorithm {
    /// Algorithm of a name, case-insensitively (by Unicode lower case).
    pub fn from_str(s: &str) -> (r: Option<FuzzyAlgorithm>)
        ensures
            r == index_algorithm_named(lowercase(s@)),
    {
        let l = to_lower(s);
        Self::from_lower(l.as_str())
    }

    /// Algorithm of a lower-cased name.
    pub fn from_lower(l: &str) -> (r: Option<FuzzyAlgorithm>)
        ensures
            r == index_algorithm_named(l@),
    {
        if str_eq(l, "jaro_winkler") || str_eq(l, "jarowinkler") {
            Some(FuzzyAlgorithm::JaroWinkler)
        } else if str_eq(l, "levenshtein") {
            Some(FuzzyAlgorithm::Levenshtein)
        } else if str_eq(l, "damerau_levenshtein") || str_eq(l, "dameraulevenshtein") {
            Some(FuzzyAlgorithm::DamerauLevenshtein)
        } else {
            None
        }
    }
}

} // verus!

verus! {

// ---------------------------------------------------------------------------
// Fuzzy index
// ---------------------------------------------------------------------------

/// Settings and size of a fuzzy index.
#[derive(Debug)]
pub struct FuzzyIndexMetadata {
    pub name: String,
    pub field: String,
    pub algorithm: FuzzyAlgorithm,
    /// Least similarity of a match, in `[0.0, 1.0]` (`f64` bits).
    pub threshold: u64,
    pub num_entries: usize,
    /// Set while the index is being built; planners ignore it meanwhile.
    pub building: bool,
}

/// Mathematical form of an index entry: the lower-cased value, the value,
/// and the document.
pub type FuzzyEntry = (Seq<char>, Seq<char>, DocIdView);

/// Views of stored entries.
pub open spec fn fuzzy_entry_views(s: Seq<(String, String, DocumentId)>) -> Seq<FuzzyEntry> {
    Seq::new(s.len(), |i: int| (s[i].0@, s[i].1@, s[i].2@))
}

/// Index of string values for similarity search: each entry keeps the value
/// lower-cased, as given, and its document. A large index file is read
/// lazily: the entries stay on disk until first needed.
#[derive(Debug)]
pub struct FuzzyIndex {
    pub metadata: FuzzyIndexMetadata,
    entries: Vec<(String, String, DocumentId)>,
    storage_path: Option<String>,
    lazy_mode: bool,
    entries_offset: u64,
    entries_size: u64,
}

impl FuzzyIndex {
    /// The entries held in memory.
    pub closed spec fn entries_view(&self) -> Seq<FuzzyEntry> {
        fuzzy_entry_views(self.entries@)
    }

    /// Settings and size of the index (a public field; contracts read it through this).
    pub closed spec fn meta(&self) -> FuzzyIndexMetadata {
        self.metadata
    }

    /// Whether the entries are still on disk.
    pub closed spec fn lazy(&self) -> bool {
        self.lazy_mode
    }

    /// The file the index is stored in.
    pub closed spec fn path(&self) -> Option<Seq<char>> {
        match self.storage_path {
            Some(p) => Some(p@),
            None => None,
        }
    }

    /// Offset and size of the entries in the index file.
    pub closed spec fn section(&self) -> (u64, u64) {
        (self.entries_offset, self.entries_size)
    }

    fn with_path(name: &str, field: &str, algorithm: FuzzyAlgorithm, threshold: u64, storage_path: Option<String>) -> (r: Self)
        ensures
            r.meta().name@ == name@,
            r.meta().field@ == field@,
            r.meta().algorithm == algorithm,
            r.meta().threshold == threshold,
            r.meta().num_entries == 0,
            !r.meta().building,
            r.entries_view() == Seq::<FuzzyEntry>::empty(),
            !r.lazy(),
            r.path() == (match storage_path {
                Some(p) => Some(p@),
                None => None::<Seq<char>>,
            }),
    {
        let r = FuzzyIndex {
            metadata: FuzzyIndexMetadata {
                name: name.to_string(),
                field: field.to_string(),
                algorithm,
                threshold,
                num_entries: 0,
                building: false,
            },
            entries: Vec::new(),
            storage_path,
            lazy_mode: false,
            entries_offset: 0,
            entries_size: 0,
        };
        assert(r.entries_view() =~= Seq::<FuzzyEntry>::empty());
        r
    }

    /// An empty index, kept in memory only; `threshold` is the bits of a
    /// similarity in `[0.0, 1.0]`.
    pub fn new(name: &str, field: &str, algorithm: FuzzyAlgorithm, threshold: u64) -> (r: Self)
        ensures
            r.meta().name@ == name@,
            r.meta().field@ == field@,
            r.meta().algorithm == algorithm,
            r.meta().threshold == threshold,
            r.meta().num_entries == 0,
            !r.meta().building,
            r.entries_view() == Seq::<FuzzyEntry>::empty(),
            !r.lazy(),
            r.path() is None,
    {
        Self::with_path(name, field, algorithm, threshold, None)
    }

    /// An empty index stored at `storage_path`.
    pub fn new_with_storage(
        name: &str,
        field: &str,
        algorithm: FuzzyAlgorithm,
        threshold: u64,
        storage_path: String,
    ) -> (r: Self)
        ensures
            r.meta().name@ == name@,
            r.meta().field@ == field@,
            r.meta().algorithm == algorithm,
            r.meta().threshold == threshold,
            r.meta().num_entries == 0,
            !r.meta().building,
            r.entries_view() == Seq::<FuzzyEntry>::empty(),
            !r.lazy(),
            r.path() == Some(storage_path@),
    {
        Self::with_path(name, field, algorithm, threshold, Some(storage_path))
    }

    /// An index read back from its file: the metadata and the entries read
    /// (none when they stay on disk), where the entries lie in the file, and
    /// whether they were left there.
    pub fn from_file_parts(
        metadata: FuzzyIndexMetadata,
        entries: Vec<(String, String, DocumentId)>,
        storage_path: String,
        lazy_mode: bool,
        entries_offset: u64,
        entries_size: u64,
    ) -> (r: Self)
        ensures
            r.meta() == metadata,
            r.entries_view() == fuzzy_entry_views(entries@),
            r.lazy() == lazy_mode,
            r.path() == Some(storage_path@),
            r.section() == (entries_offset, entries_size),
    {
        FuzzyIndex { metadata, entries, storage_path: Some(storage_path), lazy_mode, entries_offset, entries_size }
    }

    /// The metadata, read through a reference.
    pub fn metadata_ref(&self) -> (m: &FuzzyIndexMetadata)
        ensures
            *m == self.meta(),
    {
        &self.metadata
    }

    /// Whether the index is being built.
    pub fn is_building(&self) -> (r: bool)
        ensures
            r == self.meta().building,
    {
        self.metadata.building
    }

    /// Mark the index as being built or ready.
    pub fn set_building(&mut self, building: bool)
        ensures
            final(self).meta() == (FuzzyIndexMetadata { building, ..old(self).meta() }),
            final(self).entries_view() == old(self).entries_view(),
            final(self).lazy() == old(self).lazy(),
            final(self).path() == old(self).path(),
    {
        self.metadata.building = building;
    }

    /// Store the index at `path` from now on.
    pub fn set_storage_path(&mut self, path: String)
        ensures
            final(self).path() == Some(path@),
            final(self).meta() == old(self).meta(),
            final(self).entries_view() == old(self).entries_view(),
            final(self).lazy() == old(self).lazy(),
            final(self).section() == old(self).section(),
    {
        self.storage_path = Some(path);
    }

    /// The file the index is stored in.
    pub fn storage_path(&self) -> (r: Option<&String>)
        ensures
            match r {
                Some(p) => self.path() == Some(p@),
                None => self.path() is None,
            },
    {
        self.storage_path.as_ref()
    }

    /// Number of entries (as recorded, also while they are on disk).
    pub fn entry_count(&self) -> (n: usize)
        ensures
            n == self.meta().num_entries,
    {
        self.metadata.num_entries
    }

    /// Number of entries (as recorded).
    pub fn size(&self) -> (n: usize)
        ensures
            n == self.meta().num_entries,
    {
        self.metadata.num_entries
    }

    /// The entries held in memory, for searching them.
    pub fn entries(&self) -> (r: &Vec<(String, String, DocumentId)>)
        ensures
            fuzzy_entry_views(r@) == self.entries_view(),
    {
        &self.entries
    }

    /// Whether the entries must be read from the file before use: they were
    /// left there and none is in memory.
    pub fn needs_entries_load(&self) -> (r: bool)
        ensures
            r == (self.lazy() && self.entries_view().len() == 0),
    {
        self.lazy_mode && self.entries.len() == 0
    }

    /// Offset and size of the entries in the index file.
    pub fn entries_section(&self) -> (r: (u64, u64))
        ensures
            r == self.section(),
    {
        (self.entries_offset, self.entries_size)
    }

    /// Take the entries read from the file: they are now in memory.
    pub fn finish_entries_load(&mut self, entries: Vec<(String, String, DocumentId)>)
        ensures
            final(self).entries_view() == fuzzy_entry_views(entries@),
            final(self).meta().num_entries == entries@.len(),
            !final(self).lazy(),
            final(self).meta() == (FuzzyIndexMetadata { num_entries: final(self).meta().num_entries, ..old(self).meta() }),
            final(self).path() == old(self).path(),
    {
        self.entries = entries;
        self.metadata.num_entries = self.entries.len();
        self.lazy_mode = false;
    }

    /// Add a value of a document; the value is also kept lower-cased.
    pub fn insert(&mut self, value: &str, doc_id: DocumentId)
        requires
            old(self).entries_view().len() < usize::MAX,
        ensures
            final(self).entries_view() == old(self).entries_view().push((lowercase(value@), value@, doc_id@)),
            final(self).meta().num_entries == final(self).entries_view().len(),
            final(self).lazy() == old(self).lazy(),
            final(self).path() == old(self).path(),
            final(self).meta() == (FuzzyIndexMetadata { num_entries: final(self).meta().num_entries, ..old(self).meta() }),
    {
        let lower = to_lower(value);
        let ghost e = (lower@, value@, doc_id@);
        self.entries.push((lower, value.to_string(), doc_id));
        self.metadata.num_entries = self.entries.len();
        assert(fuzzy_entry_views(self.entries@) =~= fuzzy_entry_views(old(self).entries@).push(e));
    }

    /// Keep the entries that `keep` holds of, dropping the rest.
    fn retain_entries(&mut self, Ghost(keep): Ghost<spec_fn(FuzzyEntry) -> bool>, doc_id: &DocumentId, lower: Option<&String>)
        requires
            forall|e: FuzzyEntry| #[trigger] keep(e) == !(e.2 == doc_id@ && match lower {
                Some(l) => e.0 == l@,
                None => true,
            }),
        ensures
            final(self).entries_view() == old(self).entries_view().filter(keep),
            final(self).meta().num_entries == final(self).entries_view().len(),
            final(self).lazy() == old(self).lazy(),
            final(self).path() == old(self).path(),
            final(self).meta() == (FuzzyIndexMetadata { num_entries: final(self).meta().num_entries, ..old(self).meta() }),
    {
        let ghost all = fuzzy_entry_views(self.entries@);
        let mut kept: Vec<(String, String, DocumentId)> = Vec::new();
        let mut old_entries: Vec<(String, String, DocumentId)> = Vec::new();
        std::mem::swap(&mut old_entries, &mut self.entries);
        let n = old_entries.len();
        let mut i: usize = 0;
        proof {
            assert(all.take(0).filter(keep) =~= Seq::<FuzzyEntry>::empty());
            assert(fuzzy_entry_views(kept@) =~= Seq::<FuzzyEntry>::empty());
        }
        while i < n
            invariant
                n == old_entries@.len(),
                all == fuzzy_entry_views(old_entries@),
                i <= n,
                fuzzy_entry_views(kept@) == all.take(i as int).filter(keep),
                kept@.len() <= i,
                forall|e: FuzzyEntry| #[trigger] keep(e) == !(e.2 == doc_id@ && match lower {
                    Some(l) => e.0 == l@,
                    None => true,
                }),
            decreases n - i,
        {
            let matches = old_entries[i].2.same_as(doc_id) && match lower {
                Some(l) => old_entries[i].0 == *l,
                None => true,
            };
            let ghost e = all[i as int];
            proof {
                assert(e == (old_entries@[i as int].0@, old_entries@[i as int].1@, old_entries@[i as int].2@));
                assert(all.take(i + 1) =~= all.take(i as int).push(e));
                all.take(i as int).lemma_filter_push(e, keep);
            }
            if !matches {
                let entry = (old_entries[i].0.clone(), old_entries[i].1.clone(), old_entries[i].2.copy_id());
                kept.push(entry);
                assert(fuzzy_entry_views(kept@) =~= all.take(i as int).filter(keep).push(e));
            }
            i = i + 1;
        }
        proof {
            assert(all.take(n as int) =~= all);
        }
        self.entries = kept;
        self.metadata.num_entries = self.entries.len();
    }

    /// Remove every entry of a document.
    pub fn remove(&mut self, doc_id: &DocumentId)
        ensures
            final(self).entries_view() == old(self).entries_view().filter(|e: FuzzyEntry| e.2 != doc_id@),
            final(self).meta().num_entries == final(self).entries_view().len(),
            final(self).lazy() == old(self).lazy(),
            final(self).path() == old(self).path(),
            final(self).meta() == (FuzzyIndexMetadata { num_entries: final(self).meta().num_entries, ..old(self).meta() }),
    {
        let ghost keep = |e: FuzzyEntry| e.2 != doc_id@;
        self.retain_entries(Ghost(keep), doc_id, None);
    }

    /// Remove the entries of a document for a value (compared lower-cased).
    pub fn remove_value(&mut self, value: &str, doc_id: &DocumentId)
        ensures
            final(self).entries_view() == old(self).entries_view().filter(
                |e: FuzzyEntry| !(e.0 == lowercase(value@) && e.2 == doc_id@),
            ),
            final(self).meta().num_entries == final(self).entries_view().len(),
            final(self).lazy() == old(self).lazy(),
            final(self).path() == old(self).path(),
            final(self).meta() == (FuzzyIndexMetadata { num_entries: final(self).meta().num_entries, ..old(self).meta() }),
    {
        let lower = to_lower(value);
        let ghost keep = |e: FuzzyEntry| !(e.0 == lowercase(value@) && e.2 == doc_id@);
        self.retain_entries(Ghost(keep), doc_id, Some(&lower));
    }

    /// Remove every entry.
    pub fn clear(&mut self)
        ensures
            final(self).entries_view() == Seq::<FuzzyEntry>::empty(),
            final(self).meta().num_entries == 0,
            final(self).lazy() == old(self).lazy(),
            final(self).path() == old(self).path(),
            final(self).meta() == (FuzzyIndexMetadata { num_entries: final(self).meta().num_entries, ..old(self).meta() }),
    {
        self.entries.clear();
        self.metadata.num_entries = 0;
        assert(fuzzy_entry_views(self.entries@) =~= Seq::<FuzzyEntry>::empty());
    }
}

} // verus!

verus! {

// ---------------------------------------------------------------------------
// Fuzzy index file header
// ---------------------------------------------------------------------------

/// Format version written in fuzzy index files.
pub const FUZZY_INDEX_VERSION: u32 = 1;

/// Size of a fuzzy index file's header; the entries follow it.
pub const FUZZY_HEADER_SIZE: u64 = 64;

/// Entries larger than this stay on disk until first needed.
pub const FUZZY_LAZY_LOAD_THRESHOLD_BYTES: u64 = 100 * 1024 * 1024;

/// The magic bytes that open a fuzzy index file: `IRONFZX` and a zero.
pub open spec fn fuzzy_magic() -> Seq<u8> {
    seq![0x49u8, 0x52u8, 0x4fu8, 0x4eu8, 0x46u8, 0x5au8, 0x58u8, 0x00u8]
}

/// The header of a fuzzy index file: magic bytes, version, number of
/// entries, offset of the entries, offset of the metadata (after the
/// entries), each little-endian, then zeros.
pub open spec fn fuzzy_header(entry_count: u64, entries_len: u64) -> Seq<u8> {
    fuzzy_magic() + le32(FUZZY_INDEX_VERSION) + le64(entry_count) + le64(FUZZY_HEADER_SIZE) + le64(
        (FUZZY_HEADER_SIZE + entries_len) as u64,
    ) + Seq::new(28, |i: int| 0u8)
}

/// What a fuzzy index file's header says.
#[derive(Debug, Clone, Copy, PartialEq, Eq, Structural)]
pub struct FuzzyHeader {
    pub version: u32,
    pub entry_count: u64,
    pub entries_offset: u64,
    pub metadata_offset: u64,
}

impl FuzzyHeader {
    /// Size of the entries section: the metadata starts where it ends.
    pub fn entries_size(&self) -> (n: u64)
        requires
            self.metadata_offset >= self.entries_offset,
        ensures
            n == self.metadata_offset - self.entries_offset,
    {
        self.metadata_offset - self.entries_offset
    }

    /// Whether the entries are large enough to stay on disk until needed.
    pub fn entries_stay_on_disk(&self) -> (r: bool)
        requires
            self.metadata_offset >= self.entries_offset,
        ensures
            r == (self.metadata_offset - self.entries_offset > FUZZY_LAZY_LOAD_THRESHOLD_BYTES),
    {
        self.entries_size() > FUZZY_LAZY_LOAD_THRESHOLD_BYTES
    }
}

fn push_le64(out: &mut Vec<u8>, n: u64)
    ensures
        final(out)@ == old(out)@ + le64(n),
{
    let v = crate::index::page::encode_root_offset(n);
    let mut i: usize = 0;
    let ghost start = out@;
    while i < v.len()
        invariant
            v@ == le64(n),
            i <= v@.len(),
            out@ == start + v@.take(i as int),
        decreases v@.len() - i,
    {
        out.push(v[i]);
        assert(v@.take(i + 1) =~= v@.take(i as int).push(v@[i as int]));
        i = i + 1;
    }
    assert(v@.take(v@.len() as int) =~= v@);
}

/// The header of a fuzzy index file whose entries take `entries_len` bytes.
pub fn encode_fuzzy_header(entry_count: u64, entries_len: u64) -> (h: Vec<u8>)
    requires
        entries_len <= u64::MAX - FUZZY_HEADER_SIZE,
    ensures
        h@ == fuzzy_header(entry_count, entries_len),
        h@.len() == FUZZY_HEADER_SIZE,
{
    let mut h: Vec<u8> = Vec::new();
    h.push(0x49u8);
    h.push(0x52u8);
    h.push(0x4fu8);
    h.push(0x4eu8);
    h.push(0x46u8);
    h.push(0x5au8);
    h.push(0x58u8);
    h.push(0x00u8);
    let v = FUZZY_INDEX_VERSION;
    h.push((v & 0xff) as u8);
    h.push(((v >> 8u32) & 0xff) as u8);
    h.push(((v >> 16u32) & 0xff) as u8);
    h.push(((v >> 24u32) & 0xff) as u8);
    assert(h@ =~= fuzzy_magic() + le32(FUZZY_INDEX_VERSION));
    push_le64(&mut h, entry_count);
    push_le64(&mut h, FUZZY_HEADER_SIZE);
    push_le64(&mut h, FUZZY_HEADER_SIZE + entries_len);
    let ghost body = h@;
    let mut k: usize = 0;
    while k < 28
        invariant
            k <= 28,
            h@ == body + Seq::new(k as nat, |i: int| 0u8),
        decreases 28 - k,
    {
        h.push(0u8);
        k = k + 1;
        assert(h@ =~= body + Seq::new(k as nat, |i: int| 0u8));
    }
    assert(h@ =~= fuzzy_header(entry_count, entries_len));
    h
}

/// Read a fuzzy index file's header (its first 36 bytes are read): refused
/// when the magic bytes differ, or the version is newer than this one.
pub fn decode_fuzzy_header(h: &[u8]) -> (res: Result<FuzzyHeader, IronBaseError>)
    requires
        h@.len() >= 36,
    ensures
        h@.subrange(0, 8) != fuzzy_magic() ==> res is Err && res->Err_0 is IndexError
            && res->Err_0.message() == "Invalid fuzzy index file: bad magic bytes"@,
        h@.subrange(0, 8) == fuzzy_magic() ==> ({
            let version = le32_value(h@.subrange(8, 12));
            if version > FUZZY_INDEX_VERSION {
                res is Err && res->Err_0 is IndexError && res->Err_0.message() == "Unsupported fuzzy index version: "@
                    + decimal(version as int) + " (max: 1)"@
            } else {
                res == Ok::<FuzzyHeader, IronBaseError>(
                    FuzzyHeader {
                        version,
                        entry_count: le64_value(h@.subrange(12, 20)),
                        entries_offset: le64_value(h@.subrange(20, 28)),
                        metadata_offset: le64_value(h@.subrange(28, 36)),
                    },
                )
            }
        }),
{
    let magic_ok = h[0] == 0x49u8 && h[1] == 0x52u8 && h[2] == 0x4fu8 && h[3] == 0x4eu8 && h[4] == 0x46u8 && h[5]
        == 0x5au8 && h[6] == 0x58u8 && h[7] == 0x00u8;
    if !magic_ok {
        proof {
            if h@.subrange(0, 8) == fuzzy_magic() {
                assert(h@.subrange(0, 8)[0] == h@[0] && h@.subrange(0, 8)[1] == h@[1] && h@.subrange(0, 8)[2] == h@[2]
                    && h@.subrange(0, 8)[3] == h@[3]);
                assert(h@.subrange(0, 8)[4] == h@[4] && h@.subrange(0, 8)[5] == h@[5] && h@.subrange(0, 8)[6] == h@[6]
                    && h@.subrange(0, 8)[7] == h@[7]);
            }
        }
        return Err(IronBaseError::IndexError("Invalid fuzzy index file: bad magic bytes".to_string()));
    }
    proof {
        assert(h@.subrange(0, 8) =~= fuzzy_magic());
    }
    let version = (h[8] as u32) | ((h[9] as u32) << 8u32) | ((h[10] as u32) << 16u32) | ((h[11] as u32) << 24u32);
    proof {
        let s = h@.subrange(8, 12);
        assert(s[0] == h@[8] && s[1] == h@[9] && s[2] == h@[10] && s[3] == h@[11]);
    }
    if version > FUZZY_INDEX_VERSION {
        let mut m = concat2("Unsupported fuzzy index version: ", u64_text(version as u64).as_str());
        m.append(" (max: 1)");
        return Err(IronBaseError::IndexError(m));
    }
    let entry_count = crate::index::page::decode_root_offset(slice_from(h, 12));
    let entries_offset = crate::index::page::decode_root_offset(slice_from(h, 20));
    let metadata_offset = crate::index::page::decode_root_offset(slice_from(h, 28));
    proof {
        assert(h@.subrange(12, 20) =~= h@.subrange(12, h@.len() as int).subrange(0, 8));
        assert(h@.subrange(20, 28) =~= h@.subrange(20, h@.len() as int).subrange(0, 8));
        assert(h@.subrange(28, 36) =~= h@.subrange(28, h@.len() as int).subrange(0, 8));
    }
    Ok(FuzzyHeader { version, entry_count, entries_offset, metadata_offset })
}

/// The bytes of `h` from position `k` on.
fn slice_from(h: &[u8], k: usize) -> (r: &[u8])
    requires
        k <= h@.len(),
    ensures
        r@ == h@.subrange(k as int, h@.len() as int),
{
    let (_, rest) = h.split_at(k);
    rest
}

/// Reading a header back gives what was written.
pub proof fn lemma_fuzzy_header_roundtrip(entry_count: u64, entries_len: u64)
    requires
        entries_len <= u64::MAX - FUZZY_HEADER_SIZE,
    ensures
        ({
            let h = fuzzy_header(entry_count, entries_len);
            &&& h.subrange(0, 8) == fuzzy_magic()
            &&& le32_value(h.subrange(8, 12)) == FUZZY_INDEX_VERSION
            &&& le64_value(h.subrange(12, 20)) == entry_count
            &&& le64_value(h.subrange(20, 28)) == FUZZY_HEADER_SIZE
            &&& le64_value(h.subrange(28, 36)) == FUZZY_HEADER_SIZE + entries_len
        }),
{
    let h = fuzzy_header(entry_count, entries_len);
    assert(h.subrange(0, 8) =~= fuzzy_magic());
    assert(h.subrange(8, 12) =~= le32(FUZZY_INDEX_VERSION));
    assert(h.subrange(12, 20) =~= le64(entry_count));
    assert(h.subrange(20, 28) =~= le64(FUZZY_HEADER_SIZE));
    assert(h.subrange(28, 36) =~= le64((FUZZY_HEADER_SIZE + entries_len) as u64));
    crate::index::page::lemma_root_offset_roundtrip(entry_count);
    crate::index::page::lemma_root_offset_roundtrip(FUZZY_HEADER_SIZE);
    crate::index::page::lemma_root_offset_roundtrip((FUZZY_HEADER_SIZE + entries_len) as u64);
    crate::index::page::lemma_le32_roundtrip(FUZZY_INDEX_VERSION);
}

} // verus!
