//! The vector store's bookkeeping: where its files live, what is recorded of
//! each indexed file, and the metadata written beside the vectors.
use vstd::prelude::*;

use crate::splitter::TextChunk;
use crate::text::string_views;

verus! {

/// What is recorded of an indexed file to notice later changes.
#[derive(PartialEq, Eq, Clone, Debug)]
pub struct FileMetadata {
    /// The file's path.
    pub file_path: String,
    /// The SHA-256 of its contents, in lowercase hex.
    pub file_hash: String,
    /// When it was last modified (seconds since the Unix epoch).
    pub modified_at: u64,
    /// Its size in bytes.
    pub file_size: u64,
}

/// What is stored beside each vector: the chunk it was made from and the hash
/// of the chunk's source file.
#[derive(Clone, Debug)]
pub struct MetadataEntry {
    /// The chunk's text.
    pub content: String,
    /// The file the chunk came from.
    pub source_file: String,
    /// The chunk's position in its file.
    pub chunk_index: usize,
    /// The SHA-256 of the source file, or empty when it is not known.
    pub file_hash: String,
}

/// The vector store in a folder (`vector_db/` in the data folder).
pub struct VectorStore {
    /// The folder holding `embeddings.bin` and `metadata.json`.
    pub db_path: String,
    /// What was recorded of each indexed file at the last rebuild: one record
    /// per path (see `well_formed`).
    pub file_status: Vec<FileMetadata>,
}

/// No two records are for the same path.
pub open spec fn distinct_paths(s: Seq<FileMetadata>) -> bool {
    forall|i: int, j: int|
        0 <= i < s.len() && 0 <= j < s.len() && i != j ==> #[trigger] s[i].file_path@
            != #[trigger] s[j].file_path@
}

/// The records as a map from path to record, where a later record for a path
/// replaces an earlier one.
pub open spec fn status_map(s: Seq<FileMetadata>) -> Map<Seq<char>, FileMetadata>
    decreases s.len(),
{
    if s.len() == 0 {
        Map::empty()
    } else {
        status_map(s.drop_last()).insert(s.last().file_path@, s.last())
    }
}

/// With one record per path, the map holds exactly the records, each under its path.
proof fn lemma_status_map_of_distinct(s: Seq<FileMetadata>)
    requires
        distinct_paths(s),
    ensures
        forall|i: int| 0 <= i < s.len() ==> #[trigger] status_map(s)[s[i].file_path@] == s[i],
        forall|k: Seq<char>|
            #[trigger] status_map(s).contains_key(k) <==> exists|i: int|
                0 <= i < s.len() && s[i].file_path@ == k,
    decreases s.len(),
{
    if s.len() > 0 {
        let t = s.drop_last();
        assert(distinct_paths(t)) by {
            assert forall|i: int, j: int|
                0 <= i < t.len() && 0 <= j < t.len() && i != j implies #[trigger] t[i].file_path@
                    != #[trigger] t[j].file_path@ by {
                assert(t[i] == s[i] && t[j] == s[j]);
            }
        }
        lemma_status_map_of_distinct(t);
        assert(status_map(s) == status_map(t).insert(s.last().file_path@, s.last()));
        assert forall|i: int| 0 <= i < s.len() implies #[trigger] status_map(s)[s[i].file_path@]
            == s[i] by {
            if i < s.len() - 1 {
                assert(t[i] == s[i]);
                assert(s[i].file_path@ != s[s.len() - 1].file_path@);
            }
        }
        assert forall|k: Seq<char>| #[trigger] status_map(s).contains_key(k) implies exists|i: int|
            0 <= i < s.len() && s[i].file_path@ == k by {
            if k != s.last().file_path@ {
                let i = choose|i: int| 0 <= i < t.len() && t[i].file_path@ == k;
                assert(s[i] == t[i]);
            } else {
                assert(s[s.len() - 1].file_path@ == k);
            }
        }
        assert forall|k: Seq<char>| (exists|i: int| 0 <= i < s.len() && s[i].file_path@ == k) implies #[trigger] status_map(s).contains_key(k) by {
            let i = choose|i: int| 0 <= i < s.len() && s[i].file_path@ == k;
            if i < s.len() - 1 {
                assert(t[i] == s[i]);
            }
        }
    }
}

/// The SHA-256 digest of some bytes, written as 64 lowercase hex digits.
pub uninterp spec fn sha256_hex(data: Seq<u8>) -> Seq<char>;

/// Lowercase hexadecimal digits.
pub open spec fn is_lower_hex(c: char) -> bool {
    ('0' <= c && c <= '9') || ('a' <= c && c <= 'f')
}

/// `sha256::digest` on a byte slice: the digest hex-encoded by `hex::encode`,
/// named `sha256_hex`; the source shows 32 bytes becoming 64 lowercase hex digits.
#[verifier::external_body]
fn sha256_digest(data: &[u8]) -> (r: String)
    ensures
        r@ == sha256_hex(data@),
        r@.len() == 64,
        forall|i: int| 0 <= i < 64 ==> is_lower_hex(#[trigger] r@[i]),
{
    sha256::digest(data)
}

/// `base` joined with a relative `name`, as `Path::join` does on Unix: a `/`
/// goes between them unless `base` is empty or already ends with one.
pub open spec fn path_join(base: Seq<char>, name: Seq<char>) -> Seq<char> {
    if base.len() > 0 && base.last() != '/' {
        base + seq!['/'] + name
    } else {
        base + name
    }
}

/// `base` joined with `name` (see `path_join`).
fn join_path(base: &String, name: &str) -> (r: String)
    ensures
        r@ == path_join(base@, name@),
{
    let v = crate::text::chars_of(base.as_str());
    let mut r = base.clone();
    if v.len() > 0 && v[v.len() - 1] != '/' {
        crate::text::push_char(&mut r, '/');
    }
    r.append(name);
    r
}

/// The hash recorded for `source` among `(path, hash)` pairs: the last one
/// given for that path, or empty.
pub open spec fn hash_for(hashes: Seq<(Seq<char>, Seq<char>)>, source: Seq<char>) -> Seq<char>
    decreases hashes.len(),
{
    if hashes.len() == 0 {
        Seq::empty()
    } else if hashes.last().0 == source {
        hashes.last().1
    } else {
        hash_for(hashes.drop_last(), source)
    }
}

/// `(path, hash)` pairs as character sequences.
pub open spec fn pair_views(hashes: Seq<(String, String)>) -> Seq<(Seq<char>, Seq<char>)> {
    hashes.map_values(|p: (String, String)| (p.0@, p.1@))
}

/// The hash recorded for `source` (see `hash_for`).
fn lookup_hash(hashes: &Vec<(String, String)>, source: &String) -> (r: String)
    ensures
        r@ == hash_for(pair_views(hashes@), source@),
{
    let ghost v = pair_views(hashes@);
    let mut k = hashes.len();
    assert(v.take(k as int) =~= v);
    while k > 0
        invariant
            k <= hashes.len(),
            v == pair_views(hashes@),
            hash_for(v, source@) == hash_for(v.take(k as int), source@),
        decreases k,
    {
        assert(v.take(k as int).drop_last() =~= v.take(k - 1));
        assert(v.take(k as int).last() == v[k - 1]);
        if hashes[k - 1].0 == *source {
            return hashes[k - 1].1.clone();
        }
        k = k - 1;
    }
    String::new()
}

/// Removing the record at `j` from records with one per path keeps the map of
/// the others: with the record put back, the maps agree.
proof fn lemma_remove_keeps_others(s: Seq<FileMetadata>, j: int)
    requires
        distinct_paths(s),
        0 <= j < s.len(),
    ensures
        distinct_paths(s.remove(j)),
        forall|m: FileMetadata|
            m.file_path@ == s[j].file_path@ ==> #[trigger] status_map(s.remove(j)).insert(
                m.file_path@,
                m,
            ) == status_map(s).insert(m.file_path@, m),
{
    let t = s.remove(j);
    assert forall|x: int, y: int|
        0 <= x < t.len() && 0 <= y < t.len() && x != y implies #[trigger] t[x].file_path@
            != #[trigger] t[y].file_path@ by {
        let xs = if x < j { x } else { x + 1 };
        let ys = if y < j { y } else { y + 1 };
        assert(t[x] == s[xs] && t[y] == s[ys]);
    }
    lemma_status_map_of_distinct(s);
    lemma_status_map_of_distinct(t);
    assert forall|m: FileMetadata| m.file_path@ == s[j].file_path@ implies #[trigger] status_map(
        t,
    ).insert(m.file_path@, m) == status_map(s).insert(m.file_path@, m) by {
        let a = status_map(t).insert(m.file_path@, m);
        let b = status_map(s).insert(m.file_path@, m);
        assert forall|k: Seq<char>| a.contains_key(k) <==> b.contains_key(k) by {
            if k != m.file_path@ {
                if status_map(t).contains_key(k) {
                    let x = choose|x: int| 0 <= x < t.len() && t[x].file_path@ == k;
                    let xs = if x < j { x } else { x + 1 };
                    assert(t[x] == s[xs]);
                }
                if status_map(s).contains_key(k) {
                    let x = choose|x: int| 0 <= x < s.len() && s[x].file_path@ == k;
                    assert(x != j);
                    let xt = if x < j { x } else { x - 1 };
                    assert(t[xt] == s[x]);
                }
            }
        }
        assert forall|k: Seq<char>| a.contains_key(k) implies a[k] == b[k] by {
            if k != m.file_path@ {
                let x = choose|x: int| 0 <= x < t.len() && t[x].file_path@ == k;
                let xs = if x < j { x } else { x + 1 };
                assert(t[x] == s[xs]);
                assert(status_map(t)[t[x].file_path@] == t[x]);
                assert(status_map(s)[s[xs].file_path@] == s[xs]);
            }
        }
        assert(a =~= b);
    }
}

/// The index of the record for `path`, if there is one.
fn find_record(records: &Vec<FileMetadata>, path: &String) -> (r: Option<usize>)
    ensures
        match r {
            Some(j) => j < records.len() && records[j as int].file_path@ == path@,
            None => forall|j: int| 0 <= j < records.len() ==> records[j].file_path@ != path@,
        },
{
    let mut j: usize = 0;
    while j < records.len()
        invariant
            j <= records.len(),
            forall|k: int| 0 <= k < j ==> records[k].file_path@ != path@,
        decreases records.len() - j,
    {
        if records[j].file_path == *path {
            return Some(j);
        }
        j = j + 1;
    }
    None
}

impl VectorStore {
    /// One record per path.
    pub open spec fn well_formed(&self) -> bool {
        distinct_paths(self.file_status@)
    }

    /// A store in `db_path`, with the file records saved at its last rebuild
    /// (none when they could not be read), one per path: where the saved
    /// records name a path twice, the later record is kept.
    pub fn new(db_path: &str, saved_status: Option<Vec<FileMetadata>>) -> (r: Self)
        ensures
            r.db_path@ == db_path@,
            r.well_formed(),
            status_map(r.file_status@) == match saved_status {
                Some(s) => status_map(s@),
                None => Map::empty(),
            },
            match saved_status {
                Some(s) => distinct_paths(s@) ==> r.file_status@ == s@,
                None => r.file_status@.len() == 0,
            },
    {
        let saved = match saved_status {
            Some(s) => s,
            None => Vec::new(),
        };
        let ghost sv = saved@;
        let ghost all_distinct = distinct_paths(sv);
        let mut file_status: Vec<FileMetadata> = Vec::new();
        assert(sv.take(0) =~= Seq::<FileMetadata>::empty());
        for m in it: saved
            invariant
                it.seq() == sv,
                all_distinct == distinct_paths(sv),
                distinct_paths(file_status@),
                status_map(file_status@) == status_map(sv.take(it.index() as int)),
                all_distinct ==> file_status@ == sv.take(it.index() as int),
        {
            let ghost i = it.index() as int;
            let ghost before = file_status@;
            assert(sv.take(i + 1).drop_last() =~= sv.take(i));
            assert(sv.take(i + 1).last() == m);
            match find_record(&file_status, &m.file_path) {
                Some(j) => {
                    proof {
                        if all_distinct {
                            assert(before[j as int] == sv[j as int]);
                            assert(sv[j as int].file_path@ != sv[i].file_path@);
                        }
                    }
                    file_status.remove(j);
                    let ghost removed = file_status@;
                    proof {
                        assert(removed =~= before.remove(j as int));
                        lemma_remove_keeps_others(before, j as int);
                    }
                    file_status.push(m);
                    proof {
                        assert(file_status@.drop_last() =~= removed);
                        assert(status_map(file_status@) == status_map(removed).insert(m.file_path@, m));
                        assert(status_map(before.remove(j as int)).insert(m.file_path@, m)
                            == status_map(before).insert(m.file_path@, m));
                        assert forall|x: int, y: int|
                            0 <= x < file_status@.len() && 0 <= y < file_status@.len() && x != y
                                implies #[trigger] file_status@[x].file_path@
                                != #[trigger] file_status@[y].file_path@ by {
                            if x < removed.len() && y < removed.len() {
                                assert(file_status@[x] == removed[x] && file_status@[y] == removed[y]);
                            } else if x < removed.len() {
                                assert(file_status@[x] == removed[x]);
                            } else if y < removed.len() {
                                assert(file_status@[y] == removed[y]);
                            }
                        }
                        assert(status_map(file_status@) == status_map(before).insert(m.file_path@, m));
                        assert(status_map(sv.take(i + 1)) == status_map(sv.take(i)).insert(
                            m.file_path@,
                            m,
                        ));
                    }
                },
                None => {
                    file_status.push(m);
                    proof {
                        assert(file_status@.drop_last() =~= before);
                        assert(status_map(file_status@) == status_map(before).insert(m.file_path@, m));
                        assert(status_map(sv.take(i + 1)) == status_map(sv.take(i)).insert(
                            m.file_path@,
                            m,
                        ));
                        assert forall|x: int, y: int|
                            0 <= x < file_status@.len() && 0 <= y < file_status@.len() && x != y
                                implies #[trigger] file_status@[x].file_path@
                                != #[trigger] file_status@[y].file_path@ by {
                            if x < before.len() && y < before.len() {
                                assert(file_status@[x] == before[x] && file_status@[y] == before[y]);
                            } else if x < before.len() {
                                assert(file_status@[x] == before[x]);
                            } else if y < before.len() {
                                assert(file_status@[y] == before[y]);
                            }
                        }
                        if all_distinct {
                            assert(file_status@ =~= sv.take(i + 1));
                        }
                    }
                },
            }
        }
        assert(sv.take(sv.len() as int) =~= sv);
        Self { db_path: db_path.to_owned(), file_status }
    }

    /// The SHA-256 of a file's contents, in lowercase hex.
    pub fn compute_file_hash(content: &[u8]) -> (r: String)
        ensures
            r@ == sha256_hex(content@),
    {
        sha256_digest(content)
    }

    /// What is recorded of the file at `file_path`, given its contents, its
    /// modification time and its size.
    pub fn create_file_metadata(
        file_path: &str,
        content: &[u8],
        modified_at: u64,
        file_size: u64,
    ) -> (r: FileMetadata)
        ensures
            r.file_path@ == file_path@,
            r.file_hash@ == sha256_hex(content@),
            r.modified_at == modified_at,
            r.file_size == file_size,
    {
        FileMetadata {
            file_path: file_path.to_owned(),
            file_hash: Self::compute_file_hash(content),
            modified_at,
            file_size,
        }
    }

    /// The path of the vectors file, `embeddings.bin` in the store's folder.
    pub fn embeddings_path(&self) -> (r: String)
        ensures
            r@ == path_join(self.db_path@, "embeddings.bin"@),
    {
        join_path(&self.db_path, "embeddings.bin")
    }

    /// The path of the metadata file, `metadata.json` in the store's folder.
    pub fn metadata_path(&self) -> (r: String)
        ensures
            r@ == path_join(self.db_path@, "metadata.json"@),
    {
        join_path(&self.db_path, "metadata.json")
    }

    /// The metadata written beside the vectors: one entry per chunk, in order,
    /// with the chunk's text, source and index, and the hash given for its
    /// source file in `hashes` (the last one given, or empty).
    pub fn metadata_entries(chunks: &Vec<TextChunk>, hashes: &Vec<(String, String)>) -> (r: Vec<
        MetadataEntry,
    >)
        ensures
            r.len() == chunks.len(),
            forall|i: int|
                0 <= i < r.len() ==> {
                    &&& (#[trigger] r[i]).content@ == chunks[i].content@
                    &&& r[i].source_file@ == chunks[i].source_file@
                    &&& r[i].chunk_index == chunks[i].chunk_index
                    &&& r[i].file_hash@ == hash_for(pair_views(hashes@), chunks[i].source_file@)
                },
    {
        let mut r: Vec<MetadataEntry> = Vec::new();
        let mut i: usize = 0;
        while i < chunks.len()
            invariant
                i <= chunks.len(),
                r.len() == i,
                forall|k: int|
                    0 <= k < i ==> {
                        &&& (#[trigger] r[k]).content@ == chunks[k].content@
                        &&& r[k].source_file@ == chunks[k].source_file@
                        &&& r[k].chunk_index == chunks[k].chunk_index
                        &&& r[k].file_hash@ == hash_for(pair_views(hashes@), chunks[k].source_file@)
                    },
            decreases chunks.len() - i,
        {
            let c = &chunks[i];
            r.push(
                MetadataEntry {
                    content: c.content.clone(),
                    source_file: c.source_file.clone(),
                    chunk_index: c.chunk_index,
                    file_hash: lookup_hash(hashes, &c.source_file),
                },
            );
            i = i + 1;
        }
        r
    }
}

} // verus!
