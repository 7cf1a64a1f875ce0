//! The server's deduplicating storage engine.
//!
//! Five tables: `file_table` and `pending_table` (path bytes to metadata), `chunk_table`
//! (chunk id to bytes), `chunk_count` (chunk id to reference count) and `missing_chunks`
//! (chunk id to the paths waiting for it). [`DbV`] is their model; the spec functions
//! `add_file_spec`, `add_chunk_spec` and `rm_file_spec` state each operation's effect.
use vstd::prelude::*;
use vstd::utf8::encode_utf8;
use crate::arguments::{
    chunk_views, file_id_views, same_metadata, utf8_bytes, Chunk, ChunkId, ChunkV, FileId, FileIdV,
    FileList, FileMetadata, FileMetadataV, FilePath,
};
use crate::digest::{chunk_digest, digest_of};
use crate::table::Table;

verus! {

/// Why an engine operation was refused. A refused operation changes nothing.
#[derive(Debug, Clone, Copy, PartialEq, Eq, Structural)]
pub enum DbError {
    /// The file is already stored, or already pending, with the same metadata.
    DuplicateFile,
    /// A reference count would exceed `u64::MAX`.
    CountOverflow,
    /// A stored reference count is lower than the references being released.
    Corrupted,
}

/// The model of the engine's tables.
pub struct DbV {
    pub files: Map<Seq<u8>, FileMetadataV>,
    pub pending: Map<Seq<u8>, FileMetadataV>,
    pub chunks: Map<Seq<u8>, Seq<u8>>,
    pub counts: Map<Seq<u8>, nat>,
    pub missing: Map<Seq<u8>, Seq<Seq<u8>>>,
}

pub open spec fn empty_db() -> DbV {
    DbV {
        files: Map::empty(),
        pending: Map::empty(),
        chunks: Map::empty(),
        counts: Map::empty(),
        missing: Map::empty(),
    }
}

/// The key under which a file is stored: its path's bytes.
pub open spec fn path_key(m: FileMetadataV) -> Seq<u8> {
    encode_utf8(m.file_id.path)
}

pub open spec fn count_of(counts: Map<Seq<u8>, nat>, c: Seq<u8>) -> nat {
    if counts.contains_key(c) {
        counts[c]
    } else {
        0
    }
}

/// How often `c` occurs in `s`.
pub open spec fn occ(s: Seq<Seq<u8>>, c: Seq<u8>) -> nat
    decreases s.len(),
{
    if s.len() == 0 {
        0
    } else {
        occ(s.drop_last(), c) + if s.last() == c {
            1nat
        } else {
            0nat
        }
    }
}

/// `a` without as many occurrences of each id as `b` holds (multiset difference), in `a`'s
/// order: an occurrence stays when more of its id precede it, itself included, than `b` holds.
pub open spec fn seq_minus(a: Seq<Seq<u8>>, b: Seq<Seq<u8>>) -> Seq<Seq<u8>>
    decreases a.len(),
{
    if a.len() == 0 {
        seq![]
    } else {
        let rest = seq_minus(a.drop_last(), b);
        if occ(a, a.last()) > occ(b, a.last()) {
            rest.push(a.last())
        } else {
            rest
        }
    }
}

/// One reference fewer to `c`; when none is left the chunk and its count go.
pub open spec fn release(s: DbV, c: Seq<u8>) -> DbV {
    if count_of(s.counts, c) <= 1 {
        DbV { counts: s.counts.remove(c), chunks: s.chunks.remove(c), ..s }
    } else {
        DbV { counts: s.counts.insert(c, (s.counts[c] - 1) as nat), ..s }
    }
}

pub open spec fn release_all(s: DbV, ids: Seq<Seq<u8>>) -> DbV
    decreases ids.len(),
{
    if ids.len() == 0 {
        s
    } else {
        release(release_all(s, ids.drop_last()), ids.last())
    }
}

/// One reference more to `c`.
pub open spec fn retain(s: DbV, c: Seq<u8>) -> DbV {
    DbV { counts: s.counts.insert(c, count_of(s.counts, c) + 1), ..s }
}

pub open spec fn retain_all(s: DbV, ids: Seq<Seq<u8>>) -> DbV
    decreases ids.len(),
{
    if ids.len() == 0 {
        s
    } else {
        retain(retain_all(s, ids.drop_last()), ids.last())
    }
}

/// The distinct ids of `cand`, in order of first occurrence, that `chunks` lacks.
pub open spec fn missing_of(cand: Seq<Seq<u8>>, chunks: Map<Seq<u8>, Seq<u8>>) -> Seq<Seq<u8>>
    decreases cand.len(),
{
    if cand.len() == 0 {
        seq![]
    } else {
        let rest = missing_of(cand.drop_last(), chunks);
        if !cand.drop_last().contains(cand.last()) && !chunks.contains_key(cand.last()) {
            rest.push(cand.last())
        } else {
            rest
        }
    }
}

/// Records that the file at `p` waits for `c`.
pub open spec fn note_missing(s: DbV, c: Seq<u8>, p: Seq<u8>) -> DbV {
    let waiting = if s.missing.contains_key(c) {
        s.missing[c]
    } else {
        seq![]
    };
    DbV { missing: s.missing.insert(c, waiting.push(p)), ..s }
}

pub open spec fn note_missing_all(s: DbV, ids: Seq<Seq<u8>>, p: Seq<u8>) -> DbV
    decreases ids.len(),
{
    if ids.len() == 0 {
        s
    } else {
        note_missing(note_missing_all(s, ids.drop_last(), p), ids.last(), p)
    }
}

/// Some id of `cand` would get a count above `u64::MAX`.
pub open spec fn would_overflow(counts: Map<Seq<u8>, nat>, cand: Seq<Seq<u8>>) -> bool {
    exists|i: int| 0 <= i < cand.len() && count_of(counts, cand[i]) + occ(cand, cand[i]) > u64::MAX
}

/// The chunks of the stored or pending version that `m` replaces, if any.
pub open spec fn old_chunks(s: DbV, m: FileMetadataV) -> Seq<Seq<u8>> {
    if s.files.contains_key(path_key(m)) {
        s.files[path_key(m)].chunks
    } else if s.pending.contains_key(path_key(m)) {
        s.pending[path_key(m)].chunks
    } else {
        seq![]
    }
}

/// `m` is already stored, or already pending, with the same metadata.
pub open spec fn is_duplicate(s: DbV, m: FileMetadataV) -> bool {
    let p = path_key(m);
    (s.files.contains_key(p) && same_metadata(s.files[p], m)) || (s.pending.contains_key(p)
        && same_metadata(s.pending[p], m))
}

/// Some pending file lists `c`.
pub open spec fn waited(s: DbV, c: Seq<u8>) -> bool {
    exists|q: Seq<u8>| #[trigger] s.pending.contains_key(q) && s.pending[q].chunks.contains(c)
}

/// Stops awaiting `c` when no pending file lists it any more.
pub open spec fn forget(s: DbV, c: Seq<u8>) -> DbV {
    if s.missing.contains_key(c) && !waited(s, c) {
        DbV { missing: s.missing.remove(c), ..s }
    } else {
        s
    }
}

pub open spec fn forget_all(s: DbV, ids: Seq<Seq<u8>>) -> DbV
    decreases ids.len(),
{
    if ids.len() == 0 {
        s
    } else {
        forget(forget_all(s, ids.drop_last()), ids.last())
    }
}

/// What `add_file(m)` does and returns: the missing chunk ids, or why it was refused.
pub open spec fn add_file_spec(s: DbV, m: FileMetadataV) -> (DbV, Result<Seq<Seq<u8>>, DbError>) {
    let p = path_key(m);
    if is_duplicate(s, m) {
        (s, Err(DbError::DuplicateFile))
    } else {
        let old = old_chunks(s, m);
        let remove = seq_minus(old, m.chunks);
        let cand = seq_minus(m.chunks, old);
        if would_overflow(s.counts, cand) {
            (s, Err(DbError::CountOverflow))
        } else {
            let s2 = retain_all(release_all(s, remove), cand);
            let miss = missing_of(m.chunks, s2.chunks);
            let s3 = note_missing_all(s2, miss, p);
            let s4 = if miss.len() == 0 {
                DbV { files: s3.files.insert(p, m), pending: s3.pending.remove(p), ..s3 }
            } else {
                DbV { pending: s3.pending.insert(p, m), files: s3.files.remove(p), ..s3 }
            };
            (forget_all(s4, remove), Ok(miss))
        }
    }
}

/// None of `ids` is still awaited.
pub open spec fn none_missing(s: DbV, ids: Seq<Seq<u8>>) -> bool {
    forall|i: int| 0 <= i < ids.len() ==> !s.missing.contains_key(#[trigger] ids[i])
}

/// Moves the pending file at `q` to the file table if none of its chunks is awaited.
pub open spec fn complete(s: DbV, q: Seq<u8>) -> (DbV, Option<FileIdV>) {
    if s.pending.contains_key(q) && none_missing(s, s.pending[q].chunks) {
        (
            DbV { files: s.files.insert(q, s.pending[q]), pending: s.pending.remove(q), ..s },
            Some(s.pending[q].file_id),
        )
    } else {
        (s, None)
    }
}

pub open spec fn complete_all(s: DbV, qs: Seq<Seq<u8>>) -> (DbV, Seq<FileIdV>)
    decreases qs.len(),
{
    if qs.len() == 0 {
        (s, seq![])
    } else {
        let (s1, done) = complete_all(s, qs.drop_last());
        let (s2, f) = complete(s1, qs.last());
        (
            s2,
            match f {
                Some(id) => done.push(id),
                None => done,
            },
        )
    }
}

/// What `add_chunk(c)` does and returns, given the digest of `c`'s bytes: a chunk is stored
/// only when it is awaited and its id is that digest; the files it completes are returned.
pub open spec fn add_chunk_spec(s: DbV, c: ChunkV, digest: Seq<u8>) -> (DbV, Seq<FileIdV>) {
    if digest != c.id || !s.missing.contains_key(c.id) {
        (s, seq![])
    } else {
        let s1 = DbV {
            chunks: s.chunks.insert(c.id, c.data),
            missing: s.missing.remove(c.id),
            ..s
        };
        complete_all(s1, s.missing[c.id])
    }
}

/// What `rm_file(p)` does and returns.
pub open spec fn rm_file_spec(s: DbV, p: Seq<u8>) -> (DbV, Result<(), DbError>) {
    if !s.files.contains_key(p) {
        (s, Ok(()))
    } else {
        let ids = s.files[p].chunks;
        if exists|i: int| 0 <= i < ids.len() && count_of(s.counts, ids[i]) < occ(ids, ids[i]) {
            (s, Err(DbError::Corrupted))
        } else {
            let s1 = release_all(s, ids);
            (DbV { files: s1.files.remove(p), ..s1 }, Ok(()))
        }
    }
}

/// The engine.
pub struct Db {
    file_table: Table<FileMetadata>,
    pending_table: Table<FileMetadata>,
    chunk_table: Table<Vec<u8>>,
    chunk_count: Table<u64>,
    missing_chunks: Table<Vec<Vec<u8>>>,
}

pub open spec fn byte_seqs(l: Seq<Vec<u8>>) -> Seq<Seq<u8>> {
    l.map_values(|x: Vec<u8>| x@)
}

impl View for Db {
    type V = DbV;

    closed spec fn view(&self) -> DbV {
        DbV {
            files: self.file_table.map().map_values(|m: FileMetadata| m@),
            pending: self.pending_table.map().map_values(|m: FileMetadata| m@),
            chunks: self.chunk_table.map().map_values(|d: Vec<u8>| d@),
            counts: self.chunk_count.map().map_values(|n: u64| n as nat),
            missing: self.missing_chunks.map().map_values(|l: Vec<Vec<u8>>| byte_seqs(l@)),
        }
    }
}

impl Db {
    /// The tables are well formed.
    pub closed spec fn wf(&self) -> bool {
        &&& self.file_table.wf()
        &&& self.pending_table.wf()
        &&& self.chunk_table.wf()
        &&& self.chunk_count.wf()
        &&& self.missing_chunks.wf()
    }

    pub fn new() -> (r: Db)
        ensures
            r.wf(),
            r@ == empty_db(),
    {
        let r = Db {
            file_table: Table::new(),
            pending_table: Table::new(),
            chunk_table: Table::new(),
            chunk_count: Table::new(),
            missing_chunks: Table::new(),
        };
        assert(r@.files =~= Map::empty());
        assert(r@.pending =~= Map::empty());
        assert(r@.chunks =~= Map::empty());
        assert(r@.counts =~= Map::empty());
        assert(r@.missing =~= Map::empty());
        r
    }

    /// An empty engine for short-lived use; like every engine, it lives in memory.
    pub fn new_temporary() -> (r: Db)
        ensures
            r.wf(),
            r@ == empty_db(),
    {
        Db::new()
    }

    fn count_get(&self, c: &[u8]) -> (r: u64)
        requires
            self.wf(),
        ensures
            r == count_of(self@.counts, c@),
    {
        match self.chunk_count.get(c) {
            Some(n) => *n,
            None => 0,
        }
    }

    fn release_one(&mut self, c: &ChunkId)
        requires
            old(self).wf(),
        ensures
            final(self).wf(),
            final(self)@ == release(old(self)@, c@),
    {
        let n = self.count_get(c.0.as_slice());
        if n <= 1 {
            self.chunk_count.remove(c.0.as_slice());
            self.chunk_table.remove(c.0.as_slice());
            assert(self@.counts =~= old(self)@.counts.remove(c@));
            assert(self@.chunks =~= old(self)@.chunks.remove(c@));
        } else {
            self.chunk_count.insert(c.0.clone(), n - 1);
            assert(self@.counts =~= old(self)@.counts.insert(c@, (old(self)@.counts[c@] - 1) as nat));
        }
    }

    fn retain_one(&mut self, c: &ChunkId)
        requires
            old(self).wf(),
            count_of(old(self)@.counts, c@) < u64::MAX,
        ensures
            final(self).wf(),
            final(self)@ == retain(old(self)@, c@),
    {
        let n = self.count_get(c.0.as_slice());
        self.chunk_count.insert(c.0.clone(), n + 1);
        assert(self@.counts =~= old(self)@.counts.insert(c@, count_of(old(self)@.counts, c@) + 1));
    }

    fn note_missing_one(&mut self, c: &ChunkId, p: &Vec<u8>)
        requires
            old(self).wf(),
        ensures
            final(self).wf(),
            final(self)@ == note_missing(old(self)@, c@, p@),
    {
        let ghost w = if old(self)@.missing.contains_key(c@) {
            old(self)@.missing[c@]
        } else {
            Seq::<Seq<u8>>::empty()
        };
        let mut waiting: Vec<Vec<u8>> = match self.missing_chunks.get(c.0.as_slice()) {
            Some(l) => clone_paths(l),
            None => Vec::new(),
        };
        let ghost before = byte_seqs(waiting@);
        assert(before =~= w);
        waiting.push(p.clone());
        assert(byte_seqs(waiting@) =~= before.push(p@));
        self.missing_chunks.insert(c.0.clone(), waiting);
        assert(self@.missing =~= note_missing(old(self)@, c@, p@).missing);
    }

    /// Stores a file's metadata. Returns the distinct ids of its chunks the engine still lacks,
    /// or `DuplicateFile` when the same metadata is already stored or pending. A version it
    /// replaces, stored or pending, gives up its references, and chunks no pending file waits
    /// for any more stop being awaited. With chunks missing the file is pending only.
    pub fn add_file(&mut self, file: &FileMetadata) -> (r: Result<Vec<ChunkId>, DbError>)
        requires
            old(self).wf(),
        ensures
            final(self).wf(),
            final(self)@ == add_file_spec(old(self)@, file@).0,
            match (r, add_file_spec(old(self)@, file@).1) {
                (Ok(ids), Ok(v)) => ids_view(ids@) == v,
                (Err(e), Err(k)) => e == k,
                _ => false,
            },
    {
        let ghost s = self@;
        let p = utf8_bytes(&file.file_id.path);
        let old: Vec<ChunkId> = match self.file_table.get(p.as_slice()) {
            Some(stored) => {
                if stored.same_as(file) {
                    return Err(DbError::DuplicateFile);
                }
                let pend_dup = match self.pending_table.get(p.as_slice()) {
                    Some(w) => w.same_as(file),
                    None => false,
                };
                if pend_dup {
                    return Err(DbError::DuplicateFile);
                }
                clone_ids(&stored.chunks)
            },
            None => match self.pending_table.get(p.as_slice()) {
                Some(w) => {
                    if w.same_as(file) {
                        return Err(DbError::DuplicateFile);
                    }
                    clone_ids(&w.chunks)
                },
                None => Vec::new(),
            },
        };
        assert(ids_view(old@) == old_chunks(s, file@));
        let remove = minus(&old, &file.chunks);
        let cand = minus(&file.chunks, &old);
        proof {
            lemma_minus_disjoint(ids_view(old@), ids_view(file.chunks@));
            assert(ids_view(file.chunks@) == file@.chunks);
        }
        if self.overflows(&cand) {
            return Err(DbError::CountOverflow);
        }
        let mut k: usize = 0;
        while k < remove.len()
            invariant
                self.wf(),
                k <= remove@.len(),
                self@ == release_all(s, ids_view(remove@).take(k as int)),
            decreases remove@.len() - k,
        {
            self.release_one(&remove[k]);
            k = k + 1;
            assert(ids_view(remove@).take(k as int).drop_last() =~= ids_view(remove@).take(k - 1));
        }
        assert(ids_view(remove@).take(k as int) =~= ids_view(remove@));
        let ghost s1 = self@;
        proof {
            lemma_release_all_keeps_counts(s, ids_view(remove@), ids_view(cand@));
        }
        let mut k: usize = 0;
        while k < cand.len()
            invariant
                self.wf(),
                k <= cand@.len(),
                self@ == retain_all(s1, ids_view(cand@).take(k as int)),
                forall|i: int|
                    0 <= i < cand@.len() ==> count_of(s1.counts, #[trigger] ids_view(cand@)[i])
                        + occ(ids_view(cand@), ids_view(cand@)[i]) <= u64::MAX,
            decreases cand@.len() - k,
        {
            proof {
                let cv = ids_view(cand@);
                lemma_retain_all_count(s1, cv.take(k as int), cv[k as int]);
                lemma_occ_prefix(cv, k as int + 1, cv[k as int]);
                assert(cv.take(k + 1).drop_last() =~= cv.take(k as int));
            }
            self.retain_one(&cand[k]);
            k = k + 1;
        }
        assert(ids_view(cand@).take(k as int) =~= ids_view(cand@));
        let miss = self.missing_among(&file.chunks);
        let mut k: usize = 0;
        let ghost s2 = self@;
        while k < miss.len()
            invariant
                self.wf(),
                k <= miss@.len(),
                self@ == note_missing_all(s2, ids_view(miss@).take(k as int), p@),
                p@ == path_key(file@),
            decreases miss@.len() - k,
        {
            self.note_missing_one(&miss[k], &p);
            k = k + 1;
            assert(ids_view(miss@).take(k as int).drop_last() =~= ids_view(miss@).take(k - 1));
        }
        assert(ids_view(miss@).take(k as int) =~= ids_view(miss@));
        let ghost s3 = self@;
        if miss.len() == 0 {
            self.file_table.insert(p.clone(), file.duplicate());
            self.pending_table.remove(p.as_slice());
            assert(self@.files =~= s3.files.insert(p@, file@));
            assert(self@.pending =~= s3.pending.remove(p@));
        } else {
            self.pending_table.insert(p.clone(), file.duplicate());
            self.file_table.remove(p.as_slice());
            assert(self@.pending =~= s3.pending.insert(path_key(file@), file@));
            assert(self@.files =~= s3.files.remove(p@));
        }
        let ghost s4 = self@;
        let mut k: usize = 0;
        while k < remove.len()
            invariant
                self.wf(),
                k <= remove@.len(),
                self@ == forget_all(s4, ids_view(remove@).take(k as int)),
            decreases remove@.len() - k,
        {
            self.forget_one(&remove[k]);
            k = k + 1;
            assert(ids_view(remove@).take(k as int).drop_last() =~= ids_view(remove@).take(k - 1));
        }
        assert(ids_view(remove@).take(k as int) =~= ids_view(remove@));
        Ok(miss)
    }

    /// The reference count of a chunk (zero when it has none).
    pub fn chunk_refs(&self, id: &ChunkId) -> (r: u64)
        requires
            self.wf(),
        ensures
            r == count_of(self@.counts, id@),
    {
        self.count_get(id.0.as_slice())
    }

    /// Whether a chunk is awaited by some pending file.
    pub fn is_awaited(&self, id: &ChunkId) -> (r: bool)
        requires
            self.wf(),
        ensures
            r == self@.missing.contains_key(id@),
    {
        self.missing_chunks.contains(id.0.as_slice())
    }

    /// Whether some pending file lists `c`.
    fn is_waited(&self, c: &ChunkId) -> (r: bool)
        requires
            self.wf(),
        ensures
            r == waited(self@, c@),
    {
        proof {
            self.pending_table.lemma_positions();
        }
        let n = self.pending_table.len();
        let mut i: usize = 0;
        while i < n
            invariant
                self.wf(),
                n == self.pending_table.size(),
                i <= n,
                forall|j: int|
                    0 <= j < i ==> !self@.pending[#[trigger] self.pending_table.key_at(j)].chunks.contains(c@),
            decreases n - i,
        {
            proof {
                self.pending_table.lemma_positions();
            }
            let (_, m) = self.pending_table.entry(i);
            let ghost k = self.pending_table.key_at(i as int);
            assert(self.pending_table.map().contains_key(k));
            let mut j: usize = 0;
            while j < m.chunks.len()
                invariant
                    self.wf(),
                    j <= m.chunks@.len(),
                    self.pending_table.map().contains_key(k),
                    *m == self.pending_table.map()[k],
                    forall|x: int| 0 <= x < j ==> m@.chunks[x] != c@,
                decreases m.chunks@.len() - j,
            {
                if m.chunks[j].same(c) {
                    assert(m@.chunks[j as int] == c@);
                    assert(m@.chunks.contains(c@));
                    assert(self@.pending[k] == m@);
                    assert(self@.pending.contains_key(k) && self@.pending[k].chunks.contains(c@));
                    return true;
                }
                j = j + 1;
            }
            assert(!m@.chunks.contains(c@));
            i = i + 1;
        }
        proof {
            self.pending_table.lemma_positions();
            if waited(self@, c@) {
                let q = choose|q: Seq<u8>| #[trigger] self@.pending.contains_key(q) && self@.pending[q].chunks.contains(c@);
                assert(self.pending_table.map().contains_key(q));
                let j = choose|j: int| 0 <= j < self.pending_table.size() && #[trigger] self.pending_table.key_at(j) == q;
            }
        }
        false
    }

    fn forget_one(&mut self, c: &ChunkId)
        requires
            old(self).wf(),
        ensures
            final(self).wf(),
            final(self)@ == forget(old(self)@, c@),
    {
        if self.missing_chunks.contains(c.0.as_slice()) && !self.is_waited(c) {
            self.missing_chunks.remove(c.0.as_slice());
            assert(self@.missing =~= old(self)@.missing.remove(c@));
        }
    }

    /// Whether retaining every id of `cand` would overflow a count.
    fn overflows(&self, cand: &Vec<ChunkId>) -> (r: bool)
        requires
            self.wf(),
        ensures
            r == would_overflow(self@.counts, ids_view(cand@)),
    {
        let ghost cv = ids_view(cand@);
        let mut i: usize = 0;
        while i < cand.len()
            invariant
                self.wf(),
                i <= cand@.len(),
                cv == ids_view(cand@),
                forall|j: int|
                    0 <= j < i ==> count_of(self@.counts, #[trigger] cv[j]) + occ(cv, cv[j])
                        <= u64::MAX,
            decreases cand@.len() - i,
        {
            let n = self.count_get(cand[i].0.as_slice());
            let o = count_in(cand, &cand[i], cand.len());
            assert(cv.take(cand@.len() as int) =~= cv);
            if o > u64::MAX - n {
                assert(count_of(self@.counts, cv[i as int]) + occ(cv, cv[i as int]) > u64::MAX);
                return true;
            }
            i = i + 1;
        }
        false
    }

    /// The distinct ids of `cand` the chunk table lacks, in order of first occurrence.
    fn missing_among(&self, cand: &Vec<ChunkId>) -> (r: Vec<ChunkId>)
        requires
            self.wf(),
        ensures
            ids_view(r@) == missing_of(ids_view(cand@), self@.chunks),
    {
        let ghost cv = ids_view(cand@);
        let mut r: Vec<ChunkId> = Vec::new();
        let mut i: usize = 0;
        while i < cand.len()
            invariant
                self.wf(),
                i <= cand@.len(),
                cv == ids_view(cand@),
                ids_view(r@) == missing_of(cv.take(i as int), self@.chunks),
            decreases cand@.len() - i,
        {
            let seen = count_in(cand, &cand[i], i) > 0;
            let stored = self.chunk_table.contains(cand[i].0.as_slice());
            proof {
                let t = cv.take(i + 1);
                assert(t.drop_last() =~= cv.take(i as int));
                lemma_occ_contains(cv.take(i as int), cv[i as int]);
            }
            if !seen && !stored {
                let ghost before = ids_view(r@);
                r.push(cand[i].duplicate());
                assert(ids_view(r@) =~= before.push(cv[i as int]));
            }
            i = i + 1;
        }
        assert(cv.take(cand@.len() as int) =~= cv);
        r
    }

    /// Stores an awaited chunk whose id is the digest of its bytes, and moves every pending
    /// file it completes to the file table. Returns the ids of those files.
    pub fn add_chunk(&mut self, chunk: &Chunk) -> (r: Vec<FileId>)
        requires
            old(self).wf(),
        ensures
            final(self).wf(),
            final(self)@ == add_chunk_spec(old(self)@, chunk@, digest_of(chunk.data@)).0,
            file_id_views(r@) == add_chunk_spec(old(self)@, chunk@, digest_of(chunk.data@)).1,
    {
        let d = chunk_digest(chunk.data.as_slice());
        self.accept_chunk(chunk, &d)
    }

    /// `add_chunk` given the digest of the chunk's bytes.
    pub fn accept_chunk(&mut self, chunk: &Chunk, digest: &ChunkId) -> (r: Vec<FileId>)
        requires
            old(self).wf(),
        ensures
            final(self).wf(),
            final(self)@ == add_chunk_spec(old(self)@, chunk@, digest@).0,
            file_id_views(r@) == add_chunk_spec(old(self)@, chunk@, digest@).1,
    {
        let ghost s = self@;
        let mut done: Vec<FileId> = Vec::new();
        if !digest.same(&chunk.id) {
            assert(file_id_views(done@) =~= Seq::<FileIdV>::empty());
            return done;
        }
        let waiting: Vec<Vec<u8>> = match self.missing_chunks.get(chunk.id.0.as_slice()) {
            Some(l) => clone_paths(l),
            None => {
                assert(file_id_views(done@) =~= Seq::<FileIdV>::empty());
                return done;
            },
        };
        self.chunk_table.insert(chunk.id.0.clone(), chunk.data.clone());
        self.missing_chunks.remove(chunk.id.0.as_slice());
        let ghost s1 = self@;
        assert(s1.chunks =~= s.chunks.insert(chunk@.id, chunk@.data));
        assert(s1.missing =~= s.missing.remove(chunk@.id));
        let ghost qs = byte_seqs(waiting@);
        let mut k: usize = 0;
        assert(file_id_views(done@) =~= Seq::<FileIdV>::empty());
        while k < waiting.len()
            invariant
                self.wf(),
                k <= waiting@.len(),
                qs == byte_seqs(waiting@),
                (self@, file_id_views(done@)) == complete_all(s1, qs.take(k as int)),
            decreases waiting@.len() - k,
        {
            assert(qs.take(k + 1).drop_last() =~= qs.take(k as int));
            let ghost before = file_id_views(done@);
            match self.complete_one(&waiting[k]) {
                Some(id) => {
                    done.push(id);
                    assert(file_id_views(done@) =~= before.push(id@));
                },
                None => {},
            }
            k = k + 1;
        }
        assert(qs.take(k as int) =~= qs);
        done
    }

    fn complete_one(&mut self, q: &Vec<u8>) -> (r: Option<FileId>)
        requires
            old(self).wf(),
        ensures
            final(self).wf(),
            final(self)@ == complete(old(self)@, q@).0,
            match (r, complete(old(self)@, q@).1) {
                (Some(x), Some(v)) => x@ == v,
                (None, None) => true,
                _ => false,
            },
    {
        let meta = match self.pending_table.get(q.as_slice()) {
            Some(m) => m.duplicate(),
            None => return None,
        };
        let ghost ids = meta@.chunks;
        let ghost s0 = self@;
        assert(s0.pending[q@] == meta@);
        let mut i: usize = 0;
        while i < meta.chunks.len()
            invariant
                self.wf(),
                self@ == s0,
                s0 == old(self)@,
                s0.pending.contains_key(q@),
                s0.pending[q@] == meta@,
                i <= meta.chunks@.len(),
                ids == meta@.chunks,
                forall|j: int| 0 <= j < i ==> !self@.missing.contains_key(#[trigger] ids[j]),
            decreases meta.chunks@.len() - i,
        {
            if self.missing_chunks.contains(meta.chunks[i].0.as_slice()) {
                assert(self@.missing.contains_key(ids[i as int]));
                assert(!none_missing(self@, ids));
                return None;
            }
            i = i + 1;
        }
        let id = meta.file_id.duplicate();
        let ghost s = self@;
        self.file_table.insert(q.clone(), meta);
        self.pending_table.remove(q.as_slice());
        assert(self@.files =~= s.files.insert(q@, s.pending[q@]));
        assert(self@.pending =~= s.pending.remove(q@));
        Some(id)
    }

    /// The stored metadata of a completed file; pending files are not shown.
    pub fn get_file(&self, file: &str) -> (r: Option<FileMetadata>)
        requires
            self.wf(),
        ensures
            r is Some <==> self@.files.contains_key(encode_utf8(file@)),
            r matches Some(m) ==> m@ == self@.files[encode_utf8(file@)],
    {
        let key: &[u8] = file.as_bytes();
        match self.file_table.get(key) {
            Some(m) => Some(m.duplicate()),
            None => None,
        }
    }

    /// A stored chunk.
    pub fn get_chunk(&self, chunk_hash: [u8; 32]) -> (r: Option<Chunk>)
        requires
            self.wf(),
        ensures
            r is Some <==> self@.chunks.contains_key(chunk_hash@),
            r matches Some(c) ==> c@.id == chunk_hash@ && c@.data == self@.chunks[chunk_hash@],
    {
        match self.chunk_table.get(&chunk_hash) {
            Some(d) => {
                let mut id: Vec<u8> = Vec::new();
                crate::bytes::extend_bytes(&mut id, &chunk_hash);
                Some(Chunk { id: ChunkId(id), data: d.clone() })
            },
            None => None,
        }
    }

    /// Removes a completed file and releases its chunk references.
    pub fn rm_file(&mut self, file_path: &FilePath) -> (r: Result<(), DbError>)
        requires
            old(self).wf(),
        ensures
            final(self).wf(),
            final(self)@ == rm_file_spec(old(self)@, encode_utf8(file_path@)).0,
            r == rm_file_spec(old(self)@, encode_utf8(file_path@)).1,
    {
        let ghost s = self@;
        let p = utf8_bytes(&file_path.0);
        let ids: Vec<ChunkId> = match self.file_table.get(p.as_slice()) {
            Some(m) => clone_ids(&m.chunks),
            None => return Ok(()),
        };
        let ghost iv = ids_view(ids@);
        assert(iv == s.files[p@].chunks);
        let mut i: usize = 0;
        while i < ids.len()
            invariant
                self.wf(),
                self@ == s,
                i <= ids@.len(),
                iv == ids_view(ids@),
                iv == s.files[p@].chunks,
                s.files.contains_key(p@),
                p@ == encode_utf8(file_path@),
                forall|j: int| 0 <= j < i ==> count_of(s.counts, #[trigger] iv[j]) >= occ(iv, iv[j]),
            decreases ids@.len() - i,
        {
            let n = self.count_get(ids[i].0.as_slice());
            let o = count_in(&ids, &ids[i], ids.len());
            assert(iv.take(ids@.len() as int) =~= iv);
            if n < o {
                assert(count_of(s.counts, iv[i as int]) < occ(iv, iv[i as int]));
                assert(p@ == encode_utf8(file_path@));
                assert(exists|j: int|
                    0 <= j < iv.len() && count_of(s.counts, iv[j]) < occ(iv, iv[j]));
                return Err(DbError::Corrupted);
            }
            i = i + 1;
        }
        let mut k: usize = 0;
        while k < ids.len()
            invariant
                self.wf(),
                k <= ids@.len(),
                iv == ids_view(ids@),
                iv == s.files[p@].chunks,
                s.files.contains_key(p@),
                p@ == encode_utf8(file_path@),
                self@ == release_all(s, iv.take(k as int)),
            decreases ids@.len() - k,
        {
            self.release_one(&ids[k]);
            k = k + 1;
            assert(iv.take(k as int).drop_last() =~= iv.take(k - 1));
        }
        assert(iv.take(k as int) =~= iv);
        let ghost s1 = self@;
        self.file_table.remove(p.as_slice());
        assert(self@.files =~= s1.files.remove(p@));
        Ok(())
    }

    /// The ids of all completed files.
    pub fn get_files(&self) -> (r: FileList)
        requires
            self.wf(),
        ensures
            r@.len() == self@.files.dom().len(),
            forall|i: int| 0 <= i < r@.len() ==> stores_file_id(self@, #[trigger] r@[i]),
            forall|k: Seq<u8>|
                #[trigger] self@.files.contains_key(k) ==> exists|i: int|
                    0 <= i < r@.len() && r@[i] == self@.files[k].file_id,
            path_ordered(r@),
    {
        let mut files: Vec<FileId> = Vec::new();
        let n = self.file_table.len();
        proof {
            self.file_table.lemma_positions();
        }
        let mut i: usize = 0;
        while i < n
            invariant
                self.wf(),
                n == self.file_table.size(),
                i <= n,
                files@.len() == i,
                forall|j: int|
                    0 <= j < i ==> (#[trigger] files@[j])@ == self@.files[self.file_table.key_at(
                        j,
                    )].file_id,
            decreases n - i,
        {
            proof {
                self.file_table.lemma_positions();
            }
            let (_, m) = self.file_table.entry(i);
            assert(self.file_table.map().contains_key(self.file_table.key_at(i as int)));
            files.push(m.file_id.duplicate());
            i = i + 1;
        }
        let sorted = sort_by_path(&files);
        let r = FileList(sorted);
        proof {
            self.file_table.lemma_positions();
        }
        assert(r@.len() == files@.len());
        assert(self@.files.dom() =~= self.file_table.map().dom());
        reveal(covers);
        assert forall|j: int| 0 <= j < r@.len() implies stores_file_id(self@, #[trigger] r@[j]) by {
            let u = choose|u: int| 0 <= u < files@.len() && file_id_views(sorted@)[j] == file_id_views(files@)[u];
            assert(self@.files.contains_key(self.file_table.key_at(u)));
            assert(r@[j] == sorted@[j]@);
        }
        assert forall|k: Seq<u8>| #[trigger] self@.files.contains_key(k) implies exists|j: int|
            0 <= j < r@.len() && r@[j] == self@.files[k].file_id by {
            let j = choose|j: int| 0 <= j < self.file_table.size() && #[trigger] self.file_table.key_at(j) == k;
            assert(files@[j]@ == self@.files[k].file_id);
            assert(file_id_views(files@)[j] == files@[j]@);
            let t = choose|t: int| 0 <= t < sorted@.len() && file_id_views(sorted@)[t] == file_id_views(files@)[j];
            assert(r@[t] == sorted@[t]@);
        }
        r
    }
}

/// `a` comes before `b` or equals it in byte-wise lexicographic order.
pub open spec fn lex_le(a: Seq<u8>, b: Seq<u8>) -> bool
    decreases a.len(),
{
    if a.len() == 0 {
        true
    } else if b.len() == 0 {
        false
    } else if a[0] != b[0] {
        a[0] < b[0]
    } else {
        lex_le(a.drop_first(), b.drop_first())
    }
}

/// File ids in order of their paths' bytes, as a key-ordered table lists them.
pub open spec fn path_ordered(fs: Seq<FileIdV>) -> bool {
    forall|i: int|
        0 <= i < fs.len() - 1 ==> lex_le(encode_utf8(#[trigger] fs[i].path), encode_utf8(fs[i + 1].path))
}

proof fn lemma_lex_total(a: Seq<u8>, b: Seq<u8>)
    ensures
        lex_le(a, b) || lex_le(b, a),
    decreases a.len(),
{
    if a.len() > 0 && b.len() > 0 && a[0] == b[0] {
        lemma_lex_total(a.drop_first(), b.drop_first());
    }
}

/// Whether `a` comes before `b` or equals it, comparing bytes.
fn bytes_le(a: &[u8], b: &[u8]) -> (r: bool)
    ensures
        r == lex_le(a@, b@),
{
    let mut i: usize = 0;
    assert(a@.subrange(0, a@.len() as int) =~= a@);
    assert(b@.subrange(0, b@.len() as int) =~= b@);
    while i < a.len() && i < b.len()
        invariant
            i <= a@.len(),
            i <= b@.len(),
            lex_le(a@, b@) == lex_le(a@.subrange(i as int, a@.len() as int), b@.subrange(i as int, b@.len() as int)),
        decreases a@.len() - i,
    {
        let ghost sa = a@.subrange(i as int, a@.len() as int);
        let ghost sb = b@.subrange(i as int, b@.len() as int);
        if a[i] != b[i] {
            return a[i] < b[i];
        }
        assert(sa.drop_first() =~= a@.subrange(i + 1, a@.len() as int));
        assert(sb.drop_first() =~= b@.subrange(i + 1, b@.len() as int));
        i = i + 1;
    }
    proof {
        assert(a@.subrange(0, a@.len() as int) =~= a@);
        assert(b@.subrange(0, b@.len() as int) =~= b@);
    }
    i == a.len()
}

/// `out` holds the first `i` ids of `v`, each at least once, and nothing else.
#[verifier::opaque]
pub open spec fn covers(out: Seq<FileIdV>, v: Seq<FileIdV>, i: int) -> bool {
    &&& forall|t: int| 0 <= t < out.len() ==> exists|j: int| 0 <= j < i && #[trigger] out[t] == v[j]
    &&& forall|j: int| 0 <= j < i ==> exists|t: int| 0 <= t < out.len() && out[t] == #[trigger] v[j]
}

proof fn lemma_insert_covers(old: Seq<FileIdV>, v: Seq<FileIdV>, i: int, pos: int)
    requires
        0 <= i < v.len(),
        0 <= pos <= old.len(),
        covers(old, v, i),
    ensures
        covers(old.insert(pos, v[i]), v, i + 1),
{
    reveal(covers);
    let n = old.insert(pos, v[i]);
    assert forall|t: int| 0 <= t < n.len() implies exists|j: int| 0 <= j < i + 1 && #[trigger] n[t] == v[j] by {
        if t < pos {
            assert(n[t] == old[t]);
            let j = choose|j: int| 0 <= j < i && #[trigger] old[t] == v[j];
            assert(n[t] == v[j]);
        } else if t == pos {
            assert(n[t] == v[i]);
        } else {
            assert(n[t] == old[t - 1]);
            let j = choose|j: int| 0 <= j < i && #[trigger] old[t - 1] == v[j];
            assert(n[t] == v[j]);
        }
    }
    assert forall|j: int| 0 <= j < i + 1 implies exists|t: int| 0 <= t < n.len() && n[t] == #[trigger] v[j] by {
        if j == i {
            assert(n[pos] == v[j]);
        } else {
            let t = choose|t: int| 0 <= t < old.len() && old[t] == #[trigger] v[j];
            if t < pos {
                assert(n[t] == old[t]);
            } else {
                assert(n[t + 1] == old[t]);
            }
        }
    }
}

proof fn lemma_insert_sorted(old: Seq<FileIdV>, x: FileIdV, pos: int)
    requires
        0 <= pos <= old.len(),
        path_ordered(old),
        pos > 0 ==> lex_le(encode_utf8(old[pos - 1].path), encode_utf8(x.path)),
        pos < old.len() ==> lex_le(encode_utf8(x.path), encode_utf8(old[pos].path)),
    ensures
        path_ordered(old.insert(pos, x)),
{
    let n = old.insert(pos, x);
    assert forall|t: int| 0 <= t < n.len() - 1 implies lex_le(encode_utf8(#[trigger] n[t].path), encode_utf8(n[t + 1].path)) by {
        if t + 1 < pos {
            assert(n[t] == old[t] && n[t + 1] == old[t + 1]);
        } else if t + 1 == pos {
            assert(n[t] == old[t] && n[t + 1] == x);
        } else if t == pos {
            assert(n[t] == x && n[t + 1] == old[t]);
        } else {
            assert(n[t] == old[t - 1] && n[t + 1] == old[t]);
            assert(lex_le(encode_utf8(old[t - 1].path), encode_utf8(old[t].path)));
        }
    }
}

/// The ids of `v` ordered by path bytes.
fn sort_by_path(v: &Vec<FileId>) -> (r: Vec<FileId>)
    ensures
        r@.len() == v@.len(),
        covers(file_id_views(r@), file_id_views(v@), v@.len() as int),
        path_ordered(file_id_views(r@)),
{
    let ghost vv = file_id_views(v@);
    let mut out: Vec<FileId> = Vec::new();
    let mut i: usize = 0;
    proof {
        reveal(covers);
    }
    while i < v.len()
        invariant
            i <= v@.len(),
            vv == file_id_views(v@),
            out@.len() == i,
            covers(file_id_views(out@), vv, i as int),
            path_ordered(file_id_views(out@)),
        decreases v@.len() - i,
    {
        let x = v[i].duplicate();
        let kx = crate::arguments::utf8_bytes(&x.path);
        let ghost ov = file_id_views(out@);
        let mut pos: usize = 0;
        let mut stop = false;
        while pos < out.len() && !stop
            invariant
                pos <= out@.len(),
                ov == file_id_views(out@),
                kx@ == encode_utf8(x@.path),
                stop ==> pos < out@.len() && lex_le(kx@, encode_utf8(ov[pos as int].path)),
                pos > 0 ==> lex_le(encode_utf8(ov[pos - 1].path), kx@),
            decreases out@.len() - pos + if stop { 0int } else { 1int },
        {
            let ko = crate::arguments::utf8_bytes(&out[pos].path);
            if bytes_le(ko.as_slice(), kx.as_slice()) {
                pos = pos + 1;
            } else {
                proof {
                    lemma_lex_total(ko@, kx@);
                }
                stop = true;
            }
        }
        proof {
            lemma_insert_covers(ov, vv, i as int, pos as int);
            lemma_insert_sorted(ov, vv[i as int], pos as int);
        }
        out.insert(pos, x);
        assert(file_id_views(out@) =~= ov.insert(pos as int, vv[i as int]));
        i = i + 1;
    }
    out
}

/// Some completed file has id `f`.
pub open spec fn stores_file_id(s: DbV, f: FileIdV) -> bool {
    exists|k: Seq<u8>| s.files.contains_key(k) && #[trigger] s.files[k].file_id == f
}

pub open spec fn ids_view(ids: Seq<ChunkId>) -> Seq<Seq<u8>> {
    chunk_views(ids)
}

fn clone_ids(ids: &Vec<ChunkId>) -> (r: Vec<ChunkId>)
    ensures
        ids_view(r@) == ids_view(ids@),
{
    let mut r: Vec<ChunkId> = Vec::new();
    let mut i: usize = 0;
    while i < ids.len()
        invariant
            i <= ids@.len(),
            ids_view(r@) =~= ids_view(ids@).take(i as int),
        decreases ids@.len() - i,
    {
        let ghost before = ids_view(r@);
        r.push(ids[i].duplicate());
        i = i + 1;
        assert(ids_view(r@) =~= before.push(ids@[i - 1]@));
    }
    assert(ids_view(ids@).take(i as int) =~= ids_view(ids@));
    r
}

fn clone_paths(l: &Vec<Vec<u8>>) -> (r: Vec<Vec<u8>>)
    ensures
        byte_seqs(r@) == byte_seqs(l@),
{
    let mut r: Vec<Vec<u8>> = Vec::new();
    let mut i: usize = 0;
    while i < l.len()
        invariant
            i <= l@.len(),
            byte_seqs(r@) =~= byte_seqs(l@).take(i as int),
        decreases l@.len() - i,
    {
        let ghost before = byte_seqs(r@);
        r.push(l[i].clone());
        i = i + 1;
        assert(byte_seqs(r@) =~= before.push(l@[i - 1]@));
    }
    assert(byte_seqs(l@).take(i as int) =~= byte_seqs(l@));
    r
}

/// How often `c` occurs among the first `n` ids.
fn count_in(ids: &Vec<ChunkId>, c: &ChunkId, n: usize) -> (r: u64)
    requires
        n <= ids@.len(),
    ensures
        r == occ(ids_view(ids@).take(n as int), c@),
{
    let ghost iv = ids_view(ids@);
    let mut r: u64 = 0;
    let mut i: usize = 0;
    while i < n
        invariant
            n <= ids@.len(),
            i <= n,
            iv == ids_view(ids@),
            r == occ(iv.take(i as int), c@),
            r <= i,
        decreases n - i,
    {
        assert(iv.take(i + 1).drop_last() =~= iv.take(i as int));
        if ids[i].same(c) {
            r = r + 1;
        }
        i = i + 1;
    }
    r
}

/// `a` without as many occurrences of each id as `b` holds.
fn minus(a: &Vec<ChunkId>, b: &Vec<ChunkId>) -> (r: Vec<ChunkId>)
    ensures
        ids_view(r@) == seq_minus(ids_view(a@), ids_view(b@)),
{
    let ghost av = ids_view(a@);
    let ghost bv = ids_view(b@);
    let mut r: Vec<ChunkId> = Vec::new();
    let mut i: usize = 0;
    while i < a.len()
        invariant
            i <= a@.len(),
            av == ids_view(a@),
            bv == ids_view(b@),
            ids_view(r@) == seq_minus(av.take(i as int), bv),
        decreases a@.len() - i,
    {
        let na = count_in(a, &a[i], i + 1);
        let nb = count_in(b, &a[i], b.len());
        assert(bv.take(b@.len() as int) =~= bv);
        let ghost t = av.take(i + 1);
        assert(t.drop_last() =~= av.take(i as int));
        assert(t.last() == a@[i as int]@);
        if na > nb {
            let ghost before = ids_view(r@);
            r.push(a[i].duplicate());
            assert(ids_view(r@) =~= before.push(a@[i as int]@));
        }
        i = i + 1;
    }
    assert(av.take(a@.len() as int) =~= av);
    r
}

proof fn lemma_minus_subset(a: Seq<Seq<u8>>, b: Seq<Seq<u8>>)
    ensures
        forall|i: int| 0 <= i < seq_minus(a, b).len() ==> a.contains(#[trigger] seq_minus(a, b)[i]),
    decreases a.len(),
{
    if a.len() > 0 {
        lemma_minus_subset(a.drop_last(), b);
        let r = seq_minus(a, b);
        assert forall|i: int| 0 <= i < r.len() implies a.contains(#[trigger] r[i]) by {
            if i < seq_minus(a.drop_last(), b).len() {
                let x = r[i];
                assert(a.drop_last().contains(x));
                let j = choose|j: int| 0 <= j < a.drop_last().len() && a.drop_last()[j] == x;
                assert(a[j] == x);
            } else {
                assert(a[a.len() - 1] == r[i]);
            }
        }
    }
}

proof fn lemma_missing_of_subset(cand: Seq<Seq<u8>>, chunks: Map<Seq<u8>, Seq<u8>>)
    ensures
        forall|i: int|
            0 <= i < missing_of(cand, chunks).len() ==> cand.contains(
                #[trigger] missing_of(cand, chunks)[i],
            ),
    decreases cand.len(),
{
    if cand.len() > 0 {
        lemma_missing_of_subset(cand.drop_last(), chunks);
        let r = missing_of(cand, chunks);
        assert forall|i: int| 0 <= i < r.len() implies cand.contains(#[trigger] r[i]) by {
            if i < missing_of(cand.drop_last(), chunks).len() {
                let x = r[i];
                assert(cand.drop_last().contains(x));
                let j = choose|j: int| 0 <= j < cand.drop_last().len() && cand.drop_last()[j] == x;
                assert(cand[j] == x);
            } else {
                assert(cand[cand.len() - 1] == r[i]);
            }
        }
    }
}

/// Every chunk id that `add_file` reports missing is one of the file's chunks.
pub proof fn lemma_add_file_missing_listed(s: DbV, m: FileMetadataV)
    ensures
        add_file_spec(s, m).1 matches Ok(miss) ==> forall|i: int|
            0 <= i < miss.len() ==> m.chunks.contains(#[trigger] miss[i]),
{
    let old = old_chunks(s, m);
    let cand = seq_minus(m.chunks, old);
    let remove = seq_minus(old, m.chunks);
    let s2 = retain_all(release_all(s, remove), cand);
    lemma_missing_of_subset(m.chunks, s2.chunks);
}

/// Every id that `seq_minus(a, b)` keeps occurs more often in `a` than in `b`.
proof fn lemma_minus_member(a: Seq<Seq<u8>>, b: Seq<Seq<u8>>, i: int)
    requires
        0 <= i < seq_minus(a, b).len(),
    ensures
        occ(a, seq_minus(a, b)[i]) > occ(b, seq_minus(a, b)[i]),
    decreases a.len(),
{
    let x = seq_minus(a, b)[i];
    let rest = seq_minus(a.drop_last(), b);
    if i < rest.len() {
        lemma_minus_member(a.drop_last(), b, i);
        assert(seq_minus(a, b)[i] == rest[i]);
    }
}

proof fn lemma_minus_disjoint(a: Seq<Seq<u8>>, b: Seq<Seq<u8>>)
    ensures
        forall|i: int, j: int|
            0 <= i < seq_minus(a, b).len() && 0 <= j < seq_minus(b, a).len() ==> seq_minus(a, b)[i]
                != seq_minus(b, a)[j],
{
    assert forall|i: int, j: int|
        0 <= i < seq_minus(a, b).len() && 0 <= j < seq_minus(b, a).len() implies seq_minus(a, b)[i]
        != seq_minus(b, a)[j] by {
        lemma_minus_member(a, b, i);
        lemma_minus_member(b, a, j);
    }
}

proof fn lemma_occ_prefix(s: Seq<Seq<u8>>, n: int, c: Seq<u8>)
    requires
        0 <= n <= s.len(),
    ensures
        occ(s.take(n), c) <= occ(s, c),
    decreases s.len() - n,
{
    if n < s.len() {
        lemma_occ_prefix(s, n + 1, c);
        assert(s.take(n + 1).drop_last() =~= s.take(n));
    } else {
        assert(s.take(n) =~= s);
    }
}

pub proof fn lemma_occ_contains(s: Seq<Seq<u8>>, c: Seq<u8>)
    ensures
        (occ(s, c) > 0) == s.contains(c),
    decreases s.len(),
{
    if s.len() > 0 {
        lemma_occ_contains(s.drop_last(), c);
        if s.drop_last().contains(c) {
            let i = choose|i: int| 0 <= i < s.drop_last().len() && s.drop_last()[i] == c;
            assert(s[i] == c);
        }
        if s.contains(c) && s.last() != c {
            let i = choose|i: int| 0 <= i < s.len() && s[i] == c;
            assert(s.drop_last()[i] == c);
        }
    } else {
        assert(!s.contains(c));
    }
}

pub proof fn lemma_retain_all_count(s: DbV, ids: Seq<Seq<u8>>, c: Seq<u8>)
    ensures
        count_of(retain_all(s, ids).counts, c) == count_of(s.counts, c) + occ(ids, c),
    decreases ids.len(),
{
    if ids.len() > 0 {
        lemma_retain_all_count(s, ids.drop_last(), c);
    }
}

/// Releasing ids other than `c` leaves `c`'s count as it was.
proof fn lemma_release_all_keeps_counts(s: DbV, remove: Seq<Seq<u8>>, cand: Seq<Seq<u8>>)
    requires
        forall|i: int, j: int| 0 <= i < remove.len() && 0 <= j < cand.len() ==> remove[i] != cand[j],
    ensures
        forall|j: int|
            0 <= j < cand.len() ==> count_of(release_all(s, remove).counts, #[trigger] cand[j])
                == count_of(s.counts, cand[j]),
    decreases remove.len(),
{
    if remove.len() > 0 {
        lemma_release_all_keeps_counts(s, remove.drop_last(), cand);
        assert forall|j: int| 0 <= j < cand.len() implies count_of(
            release_all(s, remove).counts,
            #[trigger] cand[j],
        ) == count_of(s.counts, cand[j]) by {
            assert(remove.last() != cand[j]);
        }
    }
}

} // verus!
