//! Properties of the storage engine's operations, stated over its model [`DbV`].
use vstd::prelude::*;
use crate::arguments::{same_metadata, ChunkV, FileMetadataV};
use crate::db::{waited, forget_all, is_duplicate, count_of, lemma_occ_contains, lemma_retain_all_count, missing_of, occ, old_chunks, seq_minus};
use crate::db::{
    add_chunk_spec, add_file_spec, complete, complete_all, note_missing_all,
    path_key, release, release_all, retain_all, rm_file_spec, DbError, DbV,
};
use crate::digest::digest_of;

verus! {

/// Every stored chunk's id is the digest of its bytes.
pub open spec fn chunks_authentic(s: DbV) -> bool {
    forall|c: Seq<u8>| #[trigger] s.chunks.contains_key(c) ==> digest_of(s.chunks[c]) == c
}

/// No path is both stored and pending.
pub open spec fn exclusive(s: DbV) -> bool {
    forall|p: Seq<u8>| !(#[trigger] s.files.contains_key(p) && s.pending.contains_key(p))
}

proof fn lemma_release_all_frame(s: DbV, l: Seq<Seq<u8>>)
    ensures
        release_all(s, l).files == s.files,
        release_all(s, l).pending == s.pending,
        release_all(s, l).missing == s.missing,
        forall|c: Seq<u8>| #[trigger]
            release_all(s, l).chunks.contains_key(c) ==> s.chunks.contains_key(c)
                && release_all(s, l).chunks[c] == s.chunks[c],
    decreases l.len(),
{
    if l.len() > 0 {
        lemma_release_all_frame(s, l.drop_last());
    }
}

proof fn lemma_retain_all_frame(s: DbV, l: Seq<Seq<u8>>)
    ensures
        retain_all(s, l).files == s.files,
        retain_all(s, l).pending == s.pending,
        retain_all(s, l).missing == s.missing,
        retain_all(s, l).chunks == s.chunks,
    decreases l.len(),
{
    if l.len() > 0 {
        lemma_retain_all_frame(s, l.drop_last());
    }
}

proof fn lemma_note_missing_all_frame(s: DbV, l: Seq<Seq<u8>>, p: Seq<u8>)
    ensures
        note_missing_all(s, l, p).files == s.files,
        note_missing_all(s, l, p).pending == s.pending,
        note_missing_all(s, l, p).chunks == s.chunks,
        note_missing_all(s, l, p).counts == s.counts,
    decreases l.len(),
{
    if l.len() > 0 {
        lemma_note_missing_all_frame(s, l.drop_last(), p);
    }
}

proof fn lemma_complete_all_frame(s: DbV, qs: Seq<Seq<u8>>)
    ensures
        complete_all(s, qs).0.chunks == s.chunks,
        complete_all(s, qs).0.counts == s.counts,
        complete_all(s, qs).0.missing == s.missing,
        exclusive(s) ==> exclusive(complete_all(s, qs).0),
    decreases qs.len(),
{
    if qs.len() > 0 {
        lemma_complete_all_frame(s, qs.drop_last());
        let s1 = complete_all(s, qs.drop_last()).0;
        let q = qs.last();
        if exclusive(s1) && s1.pending.contains_key(q) {
            let s2 = complete(s1, q).0;
            assert forall|p: Seq<u8>| !(#[trigger] s2.files.contains_key(p) && s2.pending.contains_key(p)) by {
                if p != q {
                    assert(!(s1.files.contains_key(p) && s1.pending.contains_key(p)));
                }
            }
        }
    }
}

proof fn lemma_waited_same(r: DbV, s: DbV, c: Seq<u8>)
    requires
        r.pending == s.pending,
    ensures
        waited(r, c) == waited(s, c),
{
    if waited(s, c) {
        let q = choose|q: Seq<u8>| #[trigger] s.pending.contains_key(q) && s.pending[q].chunks.contains(c);
        assert(r.pending.contains_key(q) && r.pending[q].chunks.contains(c));
    }
    if waited(r, c) {
        let q = choose|q: Seq<u8>| #[trigger] r.pending.contains_key(q) && r.pending[q].chunks.contains(c);
        assert(s.pending.contains_key(q) && s.pending[q].chunks.contains(c));
    }
}

proof fn lemma_forget_all_frame(s: DbV, l: Seq<Seq<u8>>)
    requires
        s.missing.dom().finite(),
    ensures
        forget_all(s, l).files == s.files,
        forget_all(s, l).pending == s.pending,
        forget_all(s, l).chunks == s.chunks,
        forget_all(s, l).counts == s.counts,
        forget_all(s, l).missing.dom().finite(),
        forall|c: Seq<u8>|
            #[trigger] forget_all(s, l).missing.contains_key(c) <==> s.missing.contains_key(c) && !(
            l.contains(c) && !waited(s, c)),
    decreases l.len(),
{
    if l.len() > 0 {
        let l1 = l.drop_last();
        lemma_forget_all_frame(s, l1);
        let r1 = forget_all(s, l1);
        assert forall|c: Seq<u8>|
            #[trigger] forget_all(s, l).missing.contains_key(c) <==> s.missing.contains_key(c) && !(
            l.contains(c) && !waited(s, c)) by {
            lemma_waited_same(r1, s, c);
            assert(r1.missing.contains_key(c) <==> s.missing.contains_key(c) && !(l1.contains(c)
                && !waited(s, c)));
            if l1.contains(c) {
                let i = choose|i: int| 0 <= i < l1.len() && l1[i] == c;
                assert(l[i] == c);
            }
            if l.contains(c) && c != l.last() {
                let i = choose|i: int| 0 <= i < l.len() && l[i] == c;
                assert(l1[i] == c);
            }
            if c == l.last() {
                assert(l[l.len() - 1] == c);
            }
        }
    }
}

/// The stages of `add_file_spec` on an input that is neither a duplicate nor overflows.
proof fn lemma_add_file_frames(s: DbV, m: FileMetadataV)
    requires
        finite_tables(s),
    ensures
        ({
            let p = path_key(m);
            let old = old_chunks(s, m);
            let remove = seq_minus(old, m.chunks);
            let cand = seq_minus(m.chunks, old);
            let s1 = release_all(s, remove);
            let s2 = retain_all(s1, cand);
            let miss = missing_of(m.chunks, s2.chunks);
            let s3 = note_missing_all(s2, miss, p);
            let r = add_file_spec(s, m).0;
            !is_duplicate(s, m) && !crate::db::would_overflow(s.counts, cand) ==> {
                &&& s1.files == s.files && s1.pending == s.pending && s1.missing == s.missing
                &&& s2.files == s.files && s2.pending == s.pending && s2.missing == s.missing
                &&& s2.chunks == s1.chunks
                &&& s3.files == s.files && s3.pending == s.pending && s3.chunks == s1.chunks
                &&& s3.counts == s2.counts
                &&& r.chunks == s1.chunks && r.counts == s2.counts
                &&& (miss.len() == 0 ==> r.files == s.files.insert(p, m) && r.pending == s.pending.remove(p))
                &&& (miss.len() > 0 ==> r.pending == s.pending.insert(p, m) && r.files == s.files.remove(p))
                &&& forall|c: Seq<u8>|
                    #[trigger] r.missing.contains_key(c) <==> (s.missing.contains_key(c) || miss.contains(c))
                        && !(remove.contains(c) && !waited(r, c))
                &&& r.missing.dom().finite()
                &&& forall|c: Seq<u8>| !(#[trigger] s1.chunks.contains_key(c)) || s.chunks.contains_key(c)
            }
        }),
{
    let p = path_key(m);
    let old = old_chunks(s, m);
    let remove = seq_minus(old, m.chunks);
    let cand = seq_minus(m.chunks, old);
    lemma_release_all_frame(s, remove);
    let s1 = release_all(s, remove);
    lemma_retain_all_frame(s1, cand);
    let s2 = retain_all(s1, cand);
    let miss = missing_of(m.chunks, s2.chunks);
    lemma_note_missing_all_frame(s2, miss, p);
    lemma_note_missing_all_keys(s2, miss, p);
    let s3 = note_missing_all(s2, miss, p);
    let s4 = if miss.len() == 0 {
        DbV { files: s3.files.insert(p, m), pending: s3.pending.remove(p), ..s3 }
    } else {
        DbV { pending: s3.pending.insert(p, m), files: s3.files.remove(p), ..s3 }
    };
    lemma_forget_all_frame(s4, remove);
    let r = add_file_spec(s, m).0;
    if !is_duplicate(s, m) && !crate::db::would_overflow(s.counts, cand) {
        assert(r == forget_all(s4, remove));
        assert forall|c: Seq<u8>|
            #[trigger] r.missing.contains_key(c) <==> (s.missing.contains_key(c) || miss.contains(c))
                && !(remove.contains(c) && !waited(r, c)) by {
            lemma_waited_same(r, s4, c);
        }
    }
}

/// Storing a file's metadata keeps every stored chunk authentic.
pub proof fn lemma_add_file_authentic(s: DbV, m: FileMetadataV)
    requires
        chunks_authentic(s),
        finite_tables(s),
    ensures
        chunks_authentic(add_file_spec(s, m).0),
{
    lemma_add_file_frames(s, m);
    lemma_release_all_frame(s, seq_minus(old_chunks(s, m), m.chunks));
}

/// The engine stores only chunks whose id is the digest of their bytes: a chunk accepted by
/// `add_chunk` is authentic, and the stored chunks stay authentic.
pub proof fn lemma_add_chunk_authentic(s: DbV, c: ChunkV)
    requires
        chunks_authentic(s),
    ensures
        chunks_authentic(add_chunk_spec(s, c, digest_of(c.data)).0),
        add_chunk_spec(s, c, digest_of(c.data)).0.chunks.contains_key(c.id) ==> digest_of(
            add_chunk_spec(s, c, digest_of(c.data)).0.chunks[c.id],
        ) == c.id,
{
    if digest_of(c.data) == c.id && s.missing.contains_key(c.id) {
        let s1 = DbV { chunks: s.chunks.insert(c.id, c.data), missing: s.missing.remove(c.id), ..s };
        lemma_complete_all_frame(s1, s.missing[c.id]);
    }
}

/// Removing a file keeps every stored chunk authentic.
pub proof fn lemma_rm_file_authentic(s: DbV, p: Seq<u8>)
    requires
        chunks_authentic(s),
    ensures
        chunks_authentic(rm_file_spec(s, p).0),
{
    if s.files.contains_key(p) {
        lemma_release_all_frame(s, s.files[p].chunks);
    }
}

/// Storing metadata keeps every path in at most one of the file and pending tables.
pub proof fn lemma_add_file_exclusive(s: DbV, m: FileMetadataV)
    requires
        exclusive(s),
        finite_tables(s),
    ensures
        exclusive(add_file_spec(s, m).0),
{
    lemma_add_file_frames(s, m);
    let p = path_key(m);
    let r = add_file_spec(s, m).0;
    assert forall|k: Seq<u8>| !(#[trigger] r.files.contains_key(k) && r.pending.contains_key(k)) by {
        if k != p {
            assert(!(s.files.contains_key(k) && s.pending.contains_key(k)));
        }
    }
}

pub proof fn lemma_add_chunk_exclusive(s: DbV, c: ChunkV, digest: Seq<u8>)
    requires
        exclusive(s),
    ensures
        exclusive(add_chunk_spec(s, c, digest).0),
{
    if digest == c.id && s.missing.contains_key(c.id) {
        let s1 = DbV { chunks: s.chunks.insert(c.id, c.data), missing: s.missing.remove(c.id), ..s };
        lemma_complete_all_frame(s1, s.missing[c.id]);
    }
}

pub proof fn lemma_rm_file_exclusive(s: DbV, p: Seq<u8>)
    requires
        exclusive(s),
    ensures
        exclusive(rm_file_spec(s, p).0),
{
    if s.files.contains_key(p) {
        lemma_release_all_frame(s, s.files[p].chunks);
        let r = rm_file_spec(s, p).0;
        assert forall|k: Seq<u8>| !(#[trigger] r.files.contains_key(k) && r.pending.contains_key(k)) by {
            assert(!(s.files.contains_key(k) && s.pending.contains_key(k)));
        }
    }
}

/// Announcing the same metadata twice in a row: once the first announcement is accepted,
/// whether the file was stored or left pending, the second is refused as a duplicate and
/// changes nothing, reference counts included.
pub proof fn lemma_reannounce(s: DbV, m: FileMetadataV)
    requires
        finite_tables(s),
        add_file_spec(s, m).1 is Ok,
    ensures
        add_file_spec(add_file_spec(s, m).0, m) == (
            add_file_spec(s, m).0,
            Err::<Seq<Seq<u8>>, DbError>(DbError::DuplicateFile),
        ),
{
    lemma_add_file_frames(s, m);
    let p = path_key(m);
    let s1 = add_file_spec(s, m).0;
    assert(is_duplicate(s1, m));
}

/// A new path whose chunks are not all stored is left pending: the first announcement
/// returns a non-empty list of missing chunks (unless a count would pass `u64::MAX`).
pub proof fn lemma_new_file_reports_missing(s: DbV, m: FileMetadataV, c: Seq<u8>)
    requires
        !s.files.contains_key(path_key(m)),
        !s.pending.contains_key(path_key(m)),
        m.chunks.contains(c),
        !s.chunks.contains_key(c),
        !crate::db::would_overflow(s.counts, m.chunks),
    ensures
        add_file_spec(s, m).1 matches Ok(miss) && miss.len() > 0,
{
    lemma_minus_nothing(m.chunks);
    assert(old_chunks(s, m) == Seq::<Seq<u8>>::empty());
    assert(seq_minus(Seq::<Seq<u8>>::empty(), m.chunks) == Seq::<Seq<u8>>::empty());
    lemma_retain_all_frame(s, m.chunks);
    let s2 = retain_all(s, m.chunks);
    lemma_missing_of_contains(m.chunks, s2.chunks, c);
}

// ---------------------------------------------------------------- references

/// The records of `m` as (key, record) pairs.
pub open spec fn entries(m: Map<Seq<u8>, FileMetadataV>) -> Set<(Seq<u8>, FileMetadataV)> {
    m.dom().map(|k: Seq<u8>| (k, m[k]))
}

pub open spec fn ref_step(c: Seq<u8>) -> spec_fn(nat, (Seq<u8>, FileMetadataV)) -> nat {
    |acc: nat, e: (Seq<u8>, FileMetadataV)| acc + occ(e.1.chunks, c)
}

/// How many references to `c` the records of `m` hold, counting repeats within a record.
pub open spec fn refs(m: Map<Seq<u8>, FileMetadataV>, c: Seq<u8>) -> nat {
    entries(m).fold(0nat, ref_step(c))
}

proof fn lemma_ref_step_commutes(c: Seq<u8>)
    ensures
        vstd::set::fold::is_fun_commutative(ref_step(c)),
{
    assert forall|b: nat, a1: (Seq<u8>, FileMetadataV), a2: (Seq<u8>, FileMetadataV)|
        #[trigger] ref_step(c)(ref_step(c)(b, a1), a2) == ref_step(c)(ref_step(c)(b, a2), a1) by {}
}

proof fn lemma_entries_finite(m: Map<Seq<u8>, FileMetadataV>)
    requires
        m.dom().finite(),
    ensures
        entries(m).finite(),
{
    m.dom().lemma_map_finite(|k: Seq<u8>| (k, m[k]));
}

pub proof fn lemma_refs_empty(c: Seq<u8>)
    ensures
        refs(Map::<Seq<u8>, FileMetadataV>::empty(), c) == 0,
{
    assert(entries(Map::<Seq<u8>, FileMetadataV>::empty()) =~= Set::empty());
    vstd::set::fold::lemma_fold_empty(0nat, ref_step(c));
}

/// Adding a record under a new key adds its references.
pub proof fn lemma_refs_insert(m: Map<Seq<u8>, FileMetadataV>, k: Seq<u8>, v: FileMetadataV, c: Seq<u8>)
    requires
        m.dom().finite(),
        !m.contains_key(k),
    ensures
        refs(m.insert(k, v), c) == refs(m, c) + occ(v.chunks, c),
{
    lemma_entries_finite(m);
    lemma_ref_step_commutes(c);
    let e = entries(m);
    assert(entries(m.insert(k, v)) =~= e.insert((k, v))) by {
        assert forall|x: (Seq<u8>, FileMetadataV)| e.insert((k, v)).contains(x) implies entries(
            m.insert(k, v),
        ).contains(x) by {
            if x != (k, v) {
                let j = choose|j: Seq<u8>| m.dom().contains(j) && (j, m[j]) == x;
                assert(m.insert(k, v).dom().contains(j) && (j, m.insert(k, v)[j]) == x);
            } else {
                assert(m.insert(k, v).dom().contains(k) && (k, m.insert(k, v)[k]) == x);
            }
        }
        assert forall|x: (Seq<u8>, FileMetadataV)| entries(m.insert(k, v)).contains(x) implies e.insert(
            (k, v),
        ).contains(x) by {
            let j = choose|j: Seq<u8>| m.insert(k, v).dom().contains(j) && (j, m.insert(k, v)[j]) == x;
            if j != k {
                assert(m.dom().contains(j) && (j, m[j]) == x);
            }
        }
    }
    assert(!e.contains((k, v))) by {
        if e.contains((k, v)) {
            let j = choose|j: Seq<u8>| m.dom().contains(j) && (j, m[j]) == (k, v);
        }
    }
    vstd::set::fold::lemma_fold_insert(e, 0nat, ref_step(c), (k, v));
}

/// A record's references are part of the total.
pub proof fn lemma_refs_remove(m: Map<Seq<u8>, FileMetadataV>, k: Seq<u8>, c: Seq<u8>)
    requires
        m.dom().finite(),
        m.contains_key(k),
    ensures
        refs(m, c) == refs(m.remove(k), c) + occ(m[k].chunks, c),
{
    assert(m.remove(k).insert(k, m[k]) =~= m);
    lemma_refs_insert(m.remove(k), k, m[k], c);
}

/// A record listing `c` makes the total positive.
pub proof fn lemma_refs_listed(m: Map<Seq<u8>, FileMetadataV>, k: Seq<u8>, c: Seq<u8>)
    requires
        m.dom().finite(),
        m.contains_key(k),
        m[k].chunks.contains(c),
    ensures
        refs(m, c) >= occ(m[k].chunks, c) > 0,
{
    lemma_refs_remove(m, k, c);
    lemma_occ_contains(m[k].chunks, c);
}

// ---------------------------------------------------------------- consistency

pub open spec fn finite_tables(s: DbV) -> bool {
    &&& s.files.dom().finite()
    &&& s.pending.dom().finite()
    &&& s.chunks.dom().finite()
    &&& s.counts.dom().finite()
    &&& s.missing.dom().finite()
}

/// Each chunk's count is the number of its occurrences across stored and pending files.
pub open spec fn refcounts_sound(s: DbV) -> bool {
    forall|c: Seq<u8>| #[trigger] count_of(s.counts, c) == refs(s.files, c) + refs(s.pending, c)
}

pub open spec fn counts_positive(s: DbV) -> bool {
    forall|c: Seq<u8>| #[trigger] s.counts.contains_key(c) ==> s.counts[c] >= 1
}

/// Every stored chunk has a positive count.
pub open spec fn no_orphans(s: DbV) -> bool {
    forall|c: Seq<u8>| #[trigger] s.chunks.contains_key(c) ==> count_of(s.counts, c) >= 1
}

/// A chunk is awaited exactly when a pending file lists it and it is not stored.
pub open spec fn missing_correct(s: DbV) -> bool {
    forall|c: Seq<u8>| #[trigger] s.missing.contains_key(c) <==> (waited(s, c) && !s.chunks.contains_key(c))
}

/// Every chunk of a stored file is present.
pub open spec fn stored_complete(s: DbV) -> bool {
    forall|p: Seq<u8>, c: Seq<u8>|
        #[trigger] s.files.contains_key(p) && #[trigger] s.files[p].chunks.contains(c) ==> s.chunks.contains_key(c)
}

/// The engine's tables agree with one another.
pub open spec fn consistent(s: DbV) -> bool {
    &&& finite_tables(s)
    &&& refcounts_sound(s)
    &&& counts_positive(s)
    &&& no_orphans(s)
    &&& missing_correct(s)
    &&& stored_complete(s)
    &&& exclusive(s)
    &&& chunks_authentic(s)
}

/// The empty engine is consistent.
pub proof fn lemma_empty_consistent()
    ensures
        consistent(crate::db::empty_db()),
{
    let s = crate::db::empty_db();
    assert forall|c: Seq<u8>| #[trigger] count_of(s.counts, c) == refs(s.files, c) + refs(s.pending, c) by {
        lemma_refs_empty(c);
    }
}

proof fn lemma_waited_refs(s: DbV, c: Seq<u8>)
    requires
        s.pending.dom().finite(),
        waited(s, c),
    ensures
        refs(s.pending, c) > 0,
{
    let q = choose|q: Seq<u8>| #[trigger] s.pending.contains_key(q) && s.pending[q].chunks.contains(c);
    lemma_refs_listed(s.pending, q, c);
}

/// Releasing `l` when every count covers it: counts drop by the occurrences in `l`, and a
/// released chunk goes exactly when its count reaches zero.
proof fn lemma_release_all_counts(s: DbV, l: Seq<Seq<u8>>)
    requires
        forall|c: Seq<u8>| #[trigger] count_of(s.counts, c) >= occ(l, c),
        counts_positive(s),
        s.chunks.dom().finite(),
        s.counts.dom().finite(),
    ensures
        forall|c: Seq<u8>| #[trigger] count_of(release_all(s, l).counts, c) == count_of(s.counts, c) - occ(l, c),
        forall|c: Seq<u8>|
            #[trigger] release_all(s, l).chunks.contains_key(c) <==> s.chunks.contains_key(c) && (occ(l, c)
                == 0 || count_of(s.counts, c) > occ(l, c)),
        counts_positive(release_all(s, l)),
        release_all(s, l).chunks.dom().finite(),
        release_all(s, l).counts.dom().finite(),
    decreases l.len(),
{
    if l.len() > 0 {
        let l1 = l.drop_last();
        let x = l.last();
        assert forall|c: Seq<u8>| #[trigger] count_of(s.counts, c) >= occ(l1, c) by {
            assert(occ(l, c) >= occ(l1, c));
        }
        lemma_release_all_counts(s, l1);
        let s1 = release_all(s, l1);
        let s2 = release_all(s, l);
        assert(s2 == release(s1, x));
        assert(count_of(s1.counts, x) >= 1);
        assert forall|c: Seq<u8>| #[trigger] count_of(s2.counts, c) == count_of(s.counts, c) - occ(l, c) by {
            assert(count_of(s1.counts, c) == count_of(s.counts, c) - occ(l1, c));
            if c == x {
                assert(occ(l, c) == occ(l1, c) + 1);
                if count_of(s1.counts, x) <= 1 {
                    assert(!s2.counts.contains_key(x));
                } else {
                    assert(s2.counts[x] == s1.counts[x] - 1);
                }
            } else {
                assert(occ(l, c) == occ(l1, c));
                assert(count_of(s2.counts, c) == count_of(s1.counts, c));
            }
        }
        assert forall|c: Seq<u8>|
            #[trigger] s2.chunks.contains_key(c) <==> s.chunks.contains_key(c) && (occ(l, c) == 0
                || count_of(s.counts, c) > occ(l, c)) by {
            if c == x {
                assert(occ(l, c) == occ(l1, c) + 1);
            } else {
                assert(occ(l, c) == occ(l1, c));
            }
        }
    }
}

/// Removing a file keeps the engine consistent.
pub proof fn lemma_rm_file_consistent(s: DbV, p: Seq<u8>)
    requires
        consistent(s),
    ensures
        consistent(rm_file_spec(s, p).0),
        rm_file_spec(s, p).1 is Ok,
{
    lemma_rm_file_exclusive(s, p);
    lemma_rm_file_authentic(s, p);
    if s.files.contains_key(p) {
        let ids = s.files[p].chunks;
        assert forall|c: Seq<u8>| #[trigger] count_of(s.counts, c) >= occ(ids, c) by {
            lemma_refs_remove(s.files, p, c);
        }
        assert(!exists|i: int| 0 <= i < ids.len() && count_of(s.counts, ids[i]) < occ(ids, ids[i]));
        lemma_release_all_counts(s, ids);
        lemma_release_all_frame(s, ids);
        let s1 = release_all(s, ids);
        let r = rm_file_spec(s, p).0;
        assert(r == DbV { files: s.files.remove(p), ..s1 });
        assert forall|c: Seq<u8>| #[trigger] count_of(r.counts, c) == refs(r.files, c) + refs(r.pending, c) by {
            lemma_refs_remove(s.files, p, c);
        }
        assert forall|c: Seq<u8>| #[trigger] r.chunks.contains_key(c) implies count_of(r.counts, c) >= 1 by {
            if occ(ids, c) == 0 {
                assert(s.chunks.contains_key(c));
            }
        }
        assert forall|c: Seq<u8>| #[trigger] r.missing.contains_key(c) <==> (waited(r, c) && !r.chunks.contains_key(c)) by {
            if s.chunks.contains_key(c) && !r.chunks.contains_key(c) {
                lemma_refs_remove(s.files, p, c);
                if waited(s, c) {
                    lemma_waited_refs(s, c);
                }
            }
            assert(waited(r, c) == waited(s, c));
        }
        assert forall|q: Seq<u8>, c: Seq<u8>|
            #[trigger] r.files.contains_key(q) && #[trigger] r.files[q].chunks.contains(c) implies r.chunks.contains_key(c) by {
            assert(s.files.contains_key(q) && s.files[q].chunks.contains(c));
            if !r.chunks.contains_key(c) {
                lemma_refs_remove(s.files, p, c);
                lemma_refs_listed(r.files, q, c);
            }
        }
    }
}

proof fn lemma_complete_consistent(s: DbV, q: Seq<u8>)
    requires
        consistent(s),
    ensures
        consistent(complete(s, q).0),
{
    if s.pending.contains_key(q) && crate::db::none_missing(s, s.pending[q].chunks) {
        let v = s.pending[q];
        let r = complete(s, q).0;
        assert(!s.files.contains_key(q));
        assert forall|c: Seq<u8>| #[trigger] count_of(r.counts, c) == refs(r.files, c) + refs(r.pending, c) by {
            lemma_refs_insert(s.files, q, v, c);
            lemma_refs_remove(s.pending, q, c);
        }
        assert forall|c: Seq<u8>| #[trigger] r.missing.contains_key(c) <==> (waited(r, c) && !r.chunks.contains_key(c)) by {
            if s.missing.contains_key(c) {
                let q0 = choose|q0: Seq<u8>| #[trigger] s.pending.contains_key(q0) && s.pending[q0].chunks.contains(c);
                if q0 == q {
                    let i = choose|i: int| 0 <= i < v.chunks.len() && v.chunks[i] == c;
                    assert(!s.missing.contains_key(v.chunks[i]));
                }
                assert(r.pending.contains_key(q0) && r.pending[q0].chunks.contains(c));
            }
            if waited(r, c) {
                let q0 = choose|q0: Seq<u8>| #[trigger] r.pending.contains_key(q0) && r.pending[q0].chunks.contains(c);
                assert(s.pending.contains_key(q0) && s.pending[q0].chunks.contains(c));
            }
        }
        assert forall|p: Seq<u8>, c: Seq<u8>|
            #[trigger] r.files.contains_key(p) && #[trigger] r.files[p].chunks.contains(c) implies r.chunks.contains_key(c) by {
            if p == q {
                let i = choose|i: int| 0 <= i < v.chunks.len() && v.chunks[i] == c;
                assert(!s.missing.contains_key(v.chunks[i]));
                assert(s.pending.contains_key(q) && s.pending[q].chunks.contains(c));
                assert(waited(s, c));
            } else {
                assert(s.files.contains_key(p) && s.files[p].chunks.contains(c));
            }
        }
        assert forall|p: Seq<u8>| !(#[trigger] r.files.contains_key(p) && r.pending.contains_key(p)) by {
            if p != q {
                assert(!(s.files.contains_key(p) && s.pending.contains_key(p)));
            }
        }
    }
}

proof fn lemma_complete_all_consistent(s: DbV, qs: Seq<Seq<u8>>)
    requires
        consistent(s),
    ensures
        consistent(complete_all(s, qs).0),
    decreases qs.len(),
{
    if qs.len() > 0 {
        lemma_complete_all_consistent(s, qs.drop_last());
        lemma_complete_consistent(complete_all(s, qs.drop_last()).0, qs.last());
    }
}

/// Accepting a chunk keeps the engine consistent.
pub proof fn lemma_add_chunk_consistent(s: DbV, c: ChunkV)
    requires
        consistent(s),
    ensures
        consistent(add_chunk_spec(s, c, digest_of(c.data)).0),
{
    if digest_of(c.data) == c.id && s.missing.contains_key(c.id) {
        let s1 = DbV { chunks: s.chunks.insert(c.id, c.data), missing: s.missing.remove(c.id), ..s };
        assert(waited(s, c.id));
        lemma_waited_refs(s, c.id);
        assert(count_of(s.counts, c.id) >= 1);
        assert forall|x: Seq<u8>| #[trigger] s1.missing.contains_key(x) <==> (waited(s1, x) && !s1.chunks.contains_key(x)) by {
            if waited(s, x) {
                let q = choose|q: Seq<u8>| #[trigger] s.pending.contains_key(q) && s.pending[q].chunks.contains(x);
                assert(s1.pending.contains_key(q) && s1.pending[q].chunks.contains(x));
            }
            if waited(s1, x) {
                let q = choose|q: Seq<u8>| #[trigger] s1.pending.contains_key(q) && s1.pending[q].chunks.contains(x);
                assert(s.pending.contains_key(q) && s.pending[q].chunks.contains(x));
            }
        }
        assert forall|p: Seq<u8>, x: Seq<u8>|
            #[trigger] s1.files.contains_key(p) && #[trigger] s1.files[p].chunks.contains(x) implies s1.chunks.contains_key(x) by {
            assert(s.files.contains_key(p) && s.files[p].chunks.contains(x));
        }
        assert forall|x: Seq<u8>| #[trigger] s1.chunks.contains_key(x) implies digest_of(s1.chunks[x]) == x by {
            if x != c.id {
                assert(s.chunks.contains_key(x));
            }
        }
        assert(consistent(s1));
        lemma_complete_all_consistent(s1, s.missing[c.id]);
    }
}

// ---------------------------------------------------------------- storing metadata

proof fn lemma_occ_push(s: Seq<Seq<u8>>, x: Seq<u8>, c: Seq<u8>)
    ensures
        occ(s.push(x), c) == occ(s, c) + if x == c {
            1nat
        } else {
            0nat
        },
{
    assert(s.push(x).drop_last() =~= s);
}

/// `seq_minus` keeps exactly the surplus occurrences.
proof fn lemma_minus_occ(a: Seq<Seq<u8>>, b: Seq<Seq<u8>>, c: Seq<u8>)
    ensures
        occ(seq_minus(a, b), c) == if occ(a, c) > occ(b, c) {
            occ(a, c) - occ(b, c)
        } else {
            0
        },
    decreases a.len(),
{
    if a.len() > 0 {
        let a1 = a.drop_last();
        let x = a.last();
        lemma_minus_occ(a1, b, c);
        let rest = seq_minus(a1, b);
        lemma_occ_push(rest, x, c);
    }
}

proof fn lemma_minus_nothing(a: Seq<Seq<u8>>)
    ensures
        seq_minus(a, Seq::<Seq<u8>>::empty()) == a,
    decreases a.len(),
{
    if a.len() > 0 {
        lemma_minus_nothing(a.drop_last());
        lemma_occ_push(a.drop_last(), a.last(), a.last());
        assert(a.drop_last().push(a.last()) =~= a);
    }
}

proof fn lemma_missing_of_contains(cand: Seq<Seq<u8>>, chunks: Map<Seq<u8>, Seq<u8>>, c: Seq<u8>)
    ensures
        missing_of(cand, chunks).contains(c) <==> cand.contains(c) && !chunks.contains_key(c),
    decreases cand.len(),
{
    if cand.len() > 0 {
        let c1 = cand.drop_last();
        lemma_missing_of_contains(c1, chunks, c);
        let rest = missing_of(c1, chunks);
        let x = cand.last();
        if cand.contains(c) && !c1.contains(c) {
            let i = choose|i: int| 0 <= i < cand.len() && cand[i] == c;
            if i < c1.len() {
                assert(c1[i] == c);
            }
        }
        if c1.contains(c) {
            let i = choose|i: int| 0 <= i < c1.len() && c1[i] == c;
            assert(cand[i] == c);
        }
        if missing_of(cand, chunks).contains(c) && !rest.contains(c) {
            let i = choose|i: int| 0 <= i < missing_of(cand, chunks).len() && missing_of(cand, chunks)[i] == c;
            if i < rest.len() {
                assert(rest[i] == c);
            }
        }
        if rest.contains(c) {
            let i = choose|i: int| 0 <= i < rest.len() && rest[i] == c;
            assert(missing_of(cand, chunks)[i] == c);
        }
        if x == c && !c1.contains(c) && !chunks.contains_key(c) {
            assert(missing_of(cand, chunks)[rest.len() as int] == c);
        }
    }
}

proof fn lemma_note_missing_all_keys(s: DbV, l: Seq<Seq<u8>>, p: Seq<u8>)
    requires
        s.missing.dom().finite(),
    ensures
        forall|c: Seq<u8>|
            #[trigger] note_missing_all(s, l, p).missing.contains_key(c) <==> s.missing.contains_key(c)
                || l.contains(c),
        note_missing_all(s, l, p).missing.dom().finite(),
    decreases l.len(),
{
    if l.len() > 0 {
        let l1 = l.drop_last();
        lemma_note_missing_all_keys(s, l1, p);
        assert forall|c: Seq<u8>|
            #[trigger] note_missing_all(s, l, p).missing.contains_key(c) <==> s.missing.contains_key(c)
                || l.contains(c) by {
            if l1.contains(c) {
                let i = choose|i: int| 0 <= i < l1.len() && l1[i] == c;
                assert(l[i] == c);
            }
            if l.contains(c) && c != l.last() {
                let i = choose|i: int| 0 <= i < l.len() && l[i] == c;
                assert(l1[i] == c);
            }
            if c == l.last() {
                assert(l[l.len() - 1] == c);
            }
        }
    } else {
        assert(!l.contains(p) || true);
    }
}

proof fn lemma_retain_all_positive(s: DbV, l: Seq<Seq<u8>>)
    requires
        counts_positive(s),
        s.counts.dom().finite(),
    ensures
        counts_positive(retain_all(s, l)),
        retain_all(s, l).counts.dom().finite(),
    decreases l.len(),
{
    if l.len() > 0 {
        lemma_retain_all_positive(s, l.drop_last());
    }
}

/// Moving a path's record into `a` and out of `b` changes the references by the new record's
/// chunks less the replaced record's.
proof fn lemma_move_refs(
    a: Map<Seq<u8>, FileMetadataV>,
    b: Map<Seq<u8>, FileMetadataV>,
    p: Seq<u8>,
    m: FileMetadataV,
    o: Seq<Seq<u8>>,
    c: Seq<u8>,
)
    requires
        a.dom().finite(),
        b.dom().finite(),
        !(a.contains_key(p) && b.contains_key(p)),
        a.contains_key(p) ==> o == a[p].chunks,
        b.contains_key(p) ==> o == b[p].chunks,
        !a.contains_key(p) && !b.contains_key(p) ==> o == Seq::<Seq<u8>>::empty(),
    ensures
        refs(a.insert(p, m), c) + refs(b.remove(p), c) == refs(a, c) + refs(b, c) - occ(o, c) + occ(
            m.chunks,
            c,
        ),
{
    if a.contains_key(p) {
        lemma_refs_remove(a, p, c);
        assert(a.insert(p, m) =~= a.remove(p).insert(p, m));
        lemma_refs_insert(a.remove(p), p, m, c);
        assert(b.remove(p) =~= b);
    } else {
        lemma_refs_insert(a, p, m, c);
        if b.contains_key(p) {
            lemma_refs_remove(b, p, c);
        } else {
            assert(b.remove(p) =~= b);
        }
    }
}

/// Storing a file's metadata keeps the engine consistent.
pub proof fn lemma_add_file_consistent(s: DbV, m: FileMetadataV)
    requires
        consistent(s),
    ensures
        consistent(add_file_spec(s, m).0),
{
    lemma_add_file_exclusive(s, m);
    lemma_add_file_authentic(s, m);
    lemma_add_file_frames(s, m);
    let p = path_key(m);
    let old = old_chunks(s, m);
    let new = m.chunks;
    let remove = seq_minus(old, new);
    let cand = seq_minus(new, old);
    if !is_duplicate(s, m) && !crate::db::would_overflow(s.counts, cand) {
        assert forall|c: Seq<u8>| #[trigger] count_of(s.counts, c) >= occ(remove, c) by {
            lemma_minus_occ(old, new, c);
            if s.files.contains_key(p) {
                lemma_refs_remove(s.files, p, c);
            } else if s.pending.contains_key(p) {
                lemma_refs_remove(s.pending, p, c);
            }
        }
        lemma_release_all_counts(s, remove);
        let s1 = release_all(s, remove);
        lemma_retain_all_positive(s1, cand);
        let s2 = retain_all(s1, cand);
        let miss = missing_of(new, s2.chunks);
        let r = add_file_spec(s, m).0;
        assert forall|c: Seq<u8>| #[trigger] count_of(r.counts, c) == count_of(s.counts, c) - occ(old, c) + occ(new, c) by {
            lemma_retain_all_count(s1, cand, c);
            lemma_minus_occ(old, new, c);
            lemma_minus_occ(new, old, c);
        }
        assert forall|c: Seq<u8>| #[trigger] count_of(r.counts, c) == refs(r.files, c) + refs(r.pending, c) by {
            if miss.len() == 0 {
                lemma_move_refs(s.files, s.pending, p, m, old, c);
            } else {
                lemma_move_refs(s.pending, s.files, p, m, old, c);
            }
        }
        assert forall|c: Seq<u8>| #[trigger] r.chunks.contains_key(c) implies count_of(r.counts, c) >= 1 by {
            lemma_minus_occ(old, new, c);
            lemma_retain_all_count(s1, cand, c);
        }
        // a chunk the release dropped is referenced by nothing any more
        assert forall|c: Seq<u8>| s.chunks.contains_key(c) && !#[trigger] r.chunks.contains_key(c) implies count_of(r.counts, c) == 0 && !waited(r, c) && !new.contains(c) by {
            lemma_minus_occ(old, new, c);
            lemma_minus_occ(new, old, c);
            lemma_retain_all_count(s1, cand, c);
            lemma_occ_contains(new, c);
            if waited(r, c) {
                lemma_waited_refs(r, c);
            }
            if new.contains(c) {
                if miss.len() == 0 {
                    lemma_refs_listed(r.files, p, c);
                } else {
                    lemma_refs_listed(r.pending, p, c);
                }
            }
        }
        assert forall|c: Seq<u8>| #[trigger] r.missing.contains_key(c) <==> (waited(r, c) && !r.chunks.contains_key(c)) by {
            lemma_missing_of_contains(new, s2.chunks, c);
            lemma_minus_occ(old, new, c);
            lemma_occ_contains(old, c);
            lemma_occ_contains(new, c);
            lemma_occ_contains(remove, c);
            if waited(r, c) && !r.chunks.contains_key(c) {
                let q = choose|q: Seq<u8>| #[trigger] r.pending.contains_key(q) && r.pending[q].chunks.contains(c);
                if q == p {
                    assert(miss.len() > 0);
                    assert(new.contains(c));
                } else {
                    assert(s.pending.contains_key(q) && s.pending[q].chunks.contains(c));
                    assert(!s.chunks.contains_key(c));
                }
            }
            if r.missing.contains_key(c) && !waited(r, c) {
                assert(!remove.contains(c));
                if miss.contains(c) {
                    assert(r.pending.contains_key(p) && r.pending[p].chunks.contains(c));
                } else {
                    assert(waited(s, c));
                    let q = choose|q: Seq<u8>| #[trigger] s.pending.contains_key(q) && s.pending[q].chunks.contains(c);
                    if q == p {
                        assert(old == s.pending[p].chunks);
                        assert(new.contains(c));
                        assert(miss.contains(c));
                    } else {
                        assert(r.pending.contains_key(q) && r.pending[q].chunks.contains(c));
                    }
                }
            }
        }
        assert forall|q: Seq<u8>, c: Seq<u8>|
            #[trigger] r.files.contains_key(q) && #[trigger] r.files[q].chunks.contains(c) implies r.chunks.contains_key(c) by {
            lemma_missing_of_contains(new, s2.chunks, c);
            if q == p {
                assert(miss.len() == 0);
            } else {
                assert(s.files.contains_key(q) && s.files[q].chunks.contains(c));
                if !r.chunks.contains_key(c) {
                    lemma_refs_listed(r.files, q, c);
                }
            }
        }
    }
}

// ---------------------------------------------------------------- sequences of operations

/// One engine operation, as a client's frames drive it.
pub enum EngineOp {
    AddFile(FileMetadataV),
    AddChunk(ChunkV),
    RmFile(Seq<u8>),
}

pub open spec fn step(s: DbV, op: EngineOp) -> DbV {
    match op {
        EngineOp::AddFile(m) => add_file_spec(s, m).0,
        EngineOp::AddChunk(c) => add_chunk_spec(s, c, digest_of(c.data)).0,
        EngineOp::RmFile(p) => rm_file_spec(s, p).0,
    }
}

pub open spec fn run(s: DbV, ops: Seq<EngineOp>) -> DbV
    decreases ops.len(),
{
    if ops.len() == 0 {
        s
    } else {
        step(run(s, ops.drop_last()), ops.last())
    }
}

/// After any sequence of operations from the empty engine: every chunk count equals the chunk's occurrences across stored and
/// pending files, every stored chunk has a positive count, no path is both stored and
/// pending, a chunk is awaited exactly when a pending file lists it and it is not stored, and
/// every stored chunk's id is the digest of its bytes.
pub proof fn lemma_runs_stay_consistent(ops: Seq<EngineOp>)
    ensures
        consistent(run(crate::db::empty_db(), ops)),
        refcounts_sound(run(crate::db::empty_db(), ops)),
        no_orphans(run(crate::db::empty_db(), ops)),
        exclusive(run(crate::db::empty_db(), ops)),
        missing_correct(run(crate::db::empty_db(), ops)),
        chunks_authentic(run(crate::db::empty_db(), ops)),
    decreases ops.len(),
{
    if ops.len() == 0 {
        lemma_empty_consistent();
    } else {
        lemma_runs_stay_consistent(ops.drop_last());
        let s = run(crate::db::empty_db(), ops.drop_last());
        match ops.last() {
            EngineOp::AddFile(m) => lemma_add_file_consistent(s, m),
            EngineOp::AddChunk(c) => lemma_add_chunk_consistent(s, c),
            EngineOp::RmFile(p) => lemma_rm_file_consistent(s, p),
        }
    }
}

// ---------------------------------------------------------------- delete after upload

/// Supplies, in order, the chunk with each id of `ids`, its bytes taken from `data`.
pub open spec fn supply_all(s: DbV, ids: Seq<Seq<u8>>, data: Map<Seq<u8>, Seq<u8>>) -> DbV
    decreases ids.len(),
{
    if ids.len() == 0 {
        s
    } else {
        let s1 = supply_all(s, ids.drop_last(), data);
        let c = ChunkV { id: ids.last(), data: data[ids.last()] };
        add_chunk_spec(s1, c, digest_of(c.data)).0
    }
}

proof fn lemma_missing_of_distinct(cand: Seq<Seq<u8>>, chunks: Map<Seq<u8>, Seq<u8>>)
    ensures
        missing_of(cand, chunks).no_duplicates(),
    decreases cand.len(),
{
    if cand.len() > 0 {
        let c1 = cand.drop_last();
        lemma_missing_of_distinct(c1, chunks);
        lemma_missing_of_contains(c1, chunks, cand.last());
    }
}

/// Noting distinct ids in an empty missing table leaves each waiting for `p` alone.
proof fn lemma_note_missing_fresh(s: DbV, l: Seq<Seq<u8>>, p: Seq<u8>)
    requires
        s.missing == Map::<Seq<u8>, Seq<Seq<u8>>>::empty(),
        l.no_duplicates(),
    ensures
        forall|c: Seq<u8>|
            #[trigger] note_missing_all(s, l, p).missing.contains_key(c) ==> note_missing_all(s, l, p).missing[c]
                == seq![p],
        forall|c: Seq<u8>| #[trigger] note_missing_all(s, l, p).missing.contains_key(c) <==> l.contains(c),
    decreases l.len(),
{
    if l.len() > 0 {
        let l1 = l.drop_last();
        assert(l1.no_duplicates());
        lemma_note_missing_fresh(s, l1, p);
        assert(!l1.contains(l.last())) by {
            if l1.contains(l.last()) {
                let i = choose|i: int| 0 <= i < l1.len() && l1[i] == l.last();
                assert(l[i] == l[l.len() - 1]);
            }
        }
        assert(seq![].push(p) =~= seq![p]);
        let prev = note_missing_all(s, l1, p);
        assert(prev.missing.contains_key(l.last()) <==> l1.contains(l.last()));
        assert(!prev.missing.contains_key(l.last()));
        assert(note_missing_all(s, l, p).missing == prev.missing.insert(l.last(), seq![p]));
        assert forall|c: Seq<u8>| #[trigger] note_missing_all(s, l, p).missing.contains_key(c) implies note_missing_all(s, l, p).missing[c] == seq![p] by {
            if c != l.last() {
                assert(prev.missing.contains_key(c));
            }
        }
        assert forall|c: Seq<u8>| #[trigger] note_missing_all(s, l, p).missing.contains_key(c) <==> l.contains(c) by {
            assert(prev.missing.contains_key(c) <==> l1.contains(c));
            if l1.contains(c) {
                let i = choose|i: int| 0 <= i < l1.len() && l1[i] == c;
                assert(l[i] == c);
            }
            if l.contains(c) && c != l.last() {
                let i = choose|i: int| 0 <= i < l.len() && l[i] == c;
                assert(l1[i] == c);
            }
            if c == l.last() {
                assert(l[l.len() - 1] == c);
            }
        }
    }
}

/// The state while the chunks of a fresh upload arrive: after the first `k` of the `n`
/// distinct chunks, the file stays pending until the last one, which moves it to the file table.
spec fn upload_state(s1: DbV, miss: Seq<Seq<u8>>, data: Map<Seq<u8>, Seq<u8>>, k: int, p: Seq<u8>, m: FileMetadataV) -> bool {
    let sk = supply_all(s1, miss.take(k), data);
    &&& sk.counts == s1.counts
    &&& sk.chunks.dom().finite()
    &&& forall|c: Seq<u8>| #[trigger] sk.chunks.contains_key(c) <==> miss.take(k).contains(c)
    &&& forall|c: Seq<u8>| #[trigger] sk.missing.contains_key(c) <==> miss.subrange(k, miss.len() as int).contains(c)
    &&& forall|c: Seq<u8>| #[trigger] sk.missing.contains_key(c) ==> sk.missing[c] == seq![p]
    &&& if k < miss.len() {
        sk.files == s1.files && sk.pending == s1.pending
    } else {
        sk.files == s1.files.insert(p, m) && sk.pending == s1.pending.remove(p)
    }
}

/// Starting from an empty engine, storing a file's metadata, then supplying every chunk it
/// reports missing, then removing the file, leaves all five tables empty.
pub proof fn lemma_delete_is_inverse(m: FileMetadataV, data: Map<Seq<u8>, Seq<u8>>)
    requires
        m.chunks.len() <= u64::MAX,
        forall|i: int|
            0 <= i < m.chunks.len() ==> data.contains_key(#[trigger] m.chunks[i]) && digest_of(
                data[m.chunks[i]],
            ) == m.chunks[i],
    ensures
        add_file_spec(crate::db::empty_db(), m).1 is Ok,
        add_file_spec(crate::db::empty_db(), m).1 matches Ok(miss) && rm_file_spec(
            supply_all(add_file_spec(crate::db::empty_db(), m).0, miss, data),
            path_key(m),
        ).0 == crate::db::empty_db(),
{
    let e = crate::db::empty_db();
    let p = path_key(m);
    let new = m.chunks;
    lemma_minus_nothing(new);
    assert(old_chunks(e, m) == Seq::<Seq<u8>>::empty());
    assert(seq_minus(Seq::<Seq<u8>>::empty(), new) == Seq::<Seq<u8>>::empty());
    assert(!crate::db::would_overflow(e.counts, new)) by {
        assert forall|i: int| 0 <= i < new.len() implies !(count_of(e.counts, new[i]) + occ(new, new[i]) > u64::MAX) by {
            lemma_occ_len(new, new[i]);
        }
    }
    lemma_retain_all_frame(e, new);
    let s2 = retain_all(e, new);
    let miss = missing_of(new, s2.chunks);
    lemma_note_missing_all_frame(s2, miss, p);
    lemma_missing_of_distinct(new, s2.chunks);
    lemma_note_missing_fresh(s2, miss, p);
    let s1 = add_file_spec(e, m).0;
    assert forall|c: Seq<u8>| #[trigger] count_of(s1.counts, c) == occ(new, c) by {
        lemma_retain_all_count(e, new, c);
    }
    assert forall|c: Seq<u8>| new.contains(c) <==> #[trigger] miss.contains(c) by {
        lemma_missing_of_contains(new, s2.chunks, c);
    }
    let n = miss.len() as int;
    let sn = supply_all(s1, miss, data);
    if n == 0 {
        assert(new.len() == 0) by {
            if new.len() > 0 {
                assert(!miss.contains(new[0]));
                assert(new.contains(new[0]));
            }
        }
        assert(sn.chunks =~= Map::<Seq<u8>, Seq<u8>>::empty());
        assert(sn.missing =~= Map::<Seq<u8>, Seq<Seq<u8>>>::empty());
        assert(sn.pending =~= Map::<Seq<u8>, FileMetadataV>::empty());
        assert(sn.files =~= Map::<Seq<u8>, FileMetadataV>::empty().insert(p, m));
        assert(sn == s1);
    } else {
        assert(s1.chunks =~= Map::<Seq<u8>, Seq<u8>>::empty());
        assert(upload_state(s1, miss, data, 0, p, m)) by {
            assert(miss.take(0) =~= Seq::<Seq<u8>>::empty());
            assert(miss.subrange(0, n) =~= miss);
        }
        assert(s1.files =~= Map::<Seq<u8>, FileMetadataV>::empty());
        lemma_supply_upto(s1, miss, data, n, p, m);
        assert(miss.take(n) =~= miss);
        assert(sn.files =~= Map::<Seq<u8>, FileMetadataV>::empty().insert(p, m));
        assert(sn.pending =~= Map::<Seq<u8>, FileMetadataV>::empty());
        assert forall|c: Seq<u8>| #[trigger] sn.chunks.contains_key(c) implies new.contains(c) by {
            assert(miss.contains(c));
        }
        assert forall|c: Seq<u8>| !#[trigger] sn.missing.contains_key(c) by {
            assert(miss.subrange(n, n) =~= Seq::<Seq<u8>>::empty());
        }
    }
    lemma_retain_all_positive(e, new);
    lemma_upload_then_remove(sn, m, p);
}

proof fn lemma_supply_upto(s1: DbV, miss: Seq<Seq<u8>>, data: Map<Seq<u8>, Seq<u8>>, k: int, p: Seq<u8>, m: FileMetadataV)
    requires
        0 <= k <= miss.len(),
        miss.len() > 0,
        miss.no_duplicates(),
        upload_state(s1, miss, data, 0, p, m),
        s1.pending == Map::<Seq<u8>, FileMetadataV>::empty().insert(p, m),
        s1.files == Map::<Seq<u8>, FileMetadataV>::empty(),
        forall|c: Seq<u8>| m.chunks.contains(c) <==> #[trigger] miss.contains(c),
        forall|i: int|
            0 <= i < m.chunks.len() ==> data.contains_key(#[trigger] m.chunks[i]) && digest_of(data[m.chunks[i]]) == m.chunks[i],
    ensures
        upload_state(s1, miss, data, k, p, m),
    decreases k,
{
    if k > 0 {
        lemma_supply_upto(s1, miss, data, k - 1, p, m);
        lemma_supply_step(s1, miss, data, k - 1, p, m);
    }
}

proof fn lemma_occ_len(s: Seq<Seq<u8>>, c: Seq<u8>)
    ensures
        occ(s, c) <= s.len(),
    decreases s.len(),
{
    if s.len() > 0 {
        lemma_occ_len(s.drop_last(), c);
    }
}

proof fn lemma_supply_step(s1: DbV, miss: Seq<Seq<u8>>, data: Map<Seq<u8>, Seq<u8>>, k: int, p: Seq<u8>, m: FileMetadataV)
    requires
        0 <= k < miss.len(),
        miss.no_duplicates(),
        upload_state(s1, miss, data, k, p, m),
        s1.pending == Map::<Seq<u8>, FileMetadataV>::empty().insert(p, m),
        s1.files == Map::<Seq<u8>, FileMetadataV>::empty(),
        forall|c: Seq<u8>| m.chunks.contains(c) <==> #[trigger] miss.contains(c),
        forall|i: int|
            0 <= i < m.chunks.len() ==> data.contains_key(#[trigger] m.chunks[i]) && digest_of(data[m.chunks[i]]) == m.chunks[i],
    ensures
        upload_state(s1, miss, data, k + 1, p, m),
{
    let sk = supply_all(s1, miss.take(k), data);
    let x = miss[k];
    assert(miss.take(k + 1).drop_last() =~= miss.take(k));
    assert(miss.take(k + 1).last() == x);
    assert(miss.contains(x));
    assert(m.chunks.contains(x));
    let i = choose|i: int| 0 <= i < m.chunks.len() && m.chunks[i] == x;
    assert(digest_of(data[x]) == x);
    assert(miss.subrange(k, miss.len() as int)[0] == x);
    assert(sk.missing.contains_key(x));
    let c = ChunkV { id: x, data: data[x] };
    let t = DbV { chunks: sk.chunks.insert(x, data[x]), missing: sk.missing.remove(x), ..sk };
    assert(sk.missing[x] == seq![p]);
    assert(seq![p].drop_last() =~= Seq::<Seq<u8>>::empty());
    let after = supply_all(s1, miss.take(k + 1), data);
    assert(seq![p].last() == p);
    assert(complete_all(t, Seq::<Seq<u8>>::empty()) == (t, Seq::<crate::arguments::FileIdV>::empty()));
    assert(complete_all(t, seq![p]).0 == complete(t, p).0);
    assert(after == complete_all(t, seq![p]).0);
    assert forall|c2: Seq<u8>| #[trigger] t.missing.contains_key(c2) <==> miss.subrange(k + 1, miss.len() as int).contains(c2) by {
        let rest = miss.subrange(k, miss.len() as int);
        let rest1 = miss.subrange(k + 1, miss.len() as int);
        if rest1.contains(c2) {
            let j = choose|j: int| 0 <= j < rest1.len() && rest1[j] == c2;
            assert(rest[j + 1] == c2);
            assert(miss[k + 1 + j] == c2);
        }
        if rest.contains(c2) && c2 != x {
            let j = choose|j: int| 0 <= j < rest.len() && rest[j] == c2;
            assert(j != 0);
            assert(rest1[j - 1] == c2);
        }
    }
    assert forall|c2: Seq<u8>| #[trigger] t.chunks.contains_key(c2) <==> miss.take(k + 1).contains(c2) by {
        let tk = miss.take(k);
        let tk1 = miss.take(k + 1);
        if tk.contains(c2) {
            let j = choose|j: int| 0 <= j < tk.len() && tk[j] == c2;
            assert(tk1[j] == c2);
        }
        if tk1.contains(c2) && c2 != x {
            let j = choose|j: int| 0 <= j < tk1.len() && tk1[j] == c2;
            assert(j != k);
            assert(tk[j] == c2);
        }
        if c2 == x {
            assert(miss.take(k + 1)[k] == x);
        }
    }
    if k + 1 < miss.len() {
        let y = miss[k + 1];
        assert(miss.subrange(k + 1, miss.len() as int)[0] == y);
        assert(t.missing.contains_key(y));
        assert(miss.contains(y));
        assert(m.chunks.contains(y));
        let j = choose|j: int| 0 <= j < m.chunks.len() && m.chunks[j] == y;
        assert(!crate::db::none_missing(t, t.pending[p].chunks));
    } else {
        assert(miss.subrange(k + 1, miss.len() as int) =~= Seq::<Seq<u8>>::empty());
        assert(crate::db::none_missing(t, t.pending[p].chunks));
    }
}

/// Removing the only stored file, when nothing is pending or awaited and the counts are its
/// occurrences, empties every table.
proof fn lemma_upload_then_remove(sn: DbV, m: FileMetadataV, p: Seq<u8>)
    requires
        sn.files == Map::<Seq<u8>, FileMetadataV>::empty().insert(p, m),
        sn.pending == Map::<Seq<u8>, FileMetadataV>::empty(),
        forall|c: Seq<u8>| #[trigger] count_of(sn.counts, c) == occ(m.chunks, c),
        counts_positive(sn),
        sn.chunks.dom().finite(),
        sn.counts.dom().finite(),
        forall|c: Seq<u8>| #[trigger] sn.chunks.contains_key(c) ==> m.chunks.contains(c),
        forall|c: Seq<u8>| !#[trigger] sn.missing.contains_key(c),
    ensures
        rm_file_spec(sn, p).0 == crate::db::empty_db(),
{
    let ids = m.chunks;
    assert(sn.files[p] == m);
    assert(!exists|i: int| 0 <= i < ids.len() && count_of(sn.counts, ids[i]) < occ(ids, ids[i]));
    lemma_release_all_counts(sn, ids);
    lemma_release_all_frame(sn, ids);
    let s1 = release_all(sn, ids);
    let r = rm_file_spec(sn, p).0;
    assert(r == DbV { files: sn.files.remove(p), ..s1 });
    assert(r.counts =~= Map::<Seq<u8>, nat>::empty()) by {
        assert forall|c: Seq<u8>| !#[trigger] r.counts.contains_key(c) by {
            assert(count_of(r.counts, c) == 0);
        }
    }
    assert(r.chunks =~= Map::<Seq<u8>, Seq<u8>>::empty()) by {
        assert forall|c: Seq<u8>| !#[trigger] r.chunks.contains_key(c) by {
            if sn.chunks.contains_key(c) {
                lemma_occ_contains(ids, c);
            }
        }
    }
    assert(r.files =~= Map::<Seq<u8>, FileMetadataV>::empty());
    assert(r.missing =~= Map::<Seq<u8>, Seq<Seq<u8>>>::empty());
    assert(r.pending =~= Map::<Seq<u8>, FileMetadataV>::empty());
}

// ---------------------------------------------------------------- single properties

proof fn lemma_complete_missing(s: DbV, q: Seq<u8>)
    requires
        missing_correct(s),
    ensures
        missing_correct(complete(s, q).0),
{
    if s.pending.contains_key(q) && crate::db::none_missing(s, s.pending[q].chunks) {
        let v = s.pending[q];
        let r = complete(s, q).0;
        assert forall|c: Seq<u8>| #[trigger] r.missing.contains_key(c) <==> (waited(r, c) && !r.chunks.contains_key(c)) by {
            if s.missing.contains_key(c) {
                let q0 = choose|q0: Seq<u8>| #[trigger] s.pending.contains_key(q0) && s.pending[q0].chunks.contains(c);
                if q0 == q {
                    let i = choose|i: int| 0 <= i < v.chunks.len() && v.chunks[i] == c;
                    assert(!s.missing.contains_key(v.chunks[i]));
                }
                assert(r.pending.contains_key(q0) && r.pending[q0].chunks.contains(c));
            }
            if waited(r, c) {
                let q0 = choose|q0: Seq<u8>| #[trigger] r.pending.contains_key(q0) && r.pending[q0].chunks.contains(c);
                assert(s.pending.contains_key(q0) && s.pending[q0].chunks.contains(c));
            }
        }
    }
}

proof fn lemma_complete_all_missing(s: DbV, qs: Seq<Seq<u8>>)
    requires
        missing_correct(s),
    ensures
        missing_correct(complete_all(s, qs).0),
    decreases qs.len(),
{
    if qs.len() > 0 {
        lemma_complete_all_missing(s, qs.drop_last());
        lemma_complete_missing(complete_all(s, qs.drop_last()).0, qs.last());
    }
}

/// Accepting a chunk keeps the missing set correct: a chunk is awaited exactly when a pending
/// file lists it and it is not stored.
pub proof fn lemma_add_chunk_missing_correct(s: DbV, c: ChunkV, digest: Seq<u8>)
    requires
        missing_correct(s),
    ensures
        missing_correct(add_chunk_spec(s, c, digest).0),
{
    if digest == c.id && s.missing.contains_key(c.id) {
        let s1 = DbV { chunks: s.chunks.insert(c.id, c.data), missing: s.missing.remove(c.id), ..s };
        assert forall|x: Seq<u8>| #[trigger] s1.missing.contains_key(x) <==> (waited(s1, x) && !s1.chunks.contains_key(x)) by {
            lemma_waited_same(s1, s, x);
        }
        lemma_complete_all_missing(s1, s.missing[c.id]);
    }
}

/// Accepting a chunk leaves no stored chunk without references, given sound counts and a
/// correct missing set.
pub proof fn lemma_add_chunk_no_orphans(s: DbV, c: ChunkV, digest: Seq<u8>)
    requires
        s.pending.dom().finite(),
        refcounts_sound(s),
        no_orphans(s),
        missing_correct(s),
    ensures
        no_orphans(add_chunk_spec(s, c, digest).0),
{
    if digest == c.id && s.missing.contains_key(c.id) {
        let s1 = DbV { chunks: s.chunks.insert(c.id, c.data), missing: s.missing.remove(c.id), ..s };
        assert(waited(s, c.id));
        lemma_waited_refs(s, c.id);
        assert(count_of(s.counts, c.id) >= 1);
        lemma_complete_all_frame(s1, s.missing[c.id]);
    }
}

/// Removing a file keeps every count equal to the chunk's references, given sound counts that
/// are never zero.
pub proof fn lemma_rm_file_refcounts(s: DbV, p: Seq<u8>)
    requires
        finite_tables(s),
        refcounts_sound(s),
        counts_positive(s),
    ensures
        refcounts_sound(rm_file_spec(s, p).0),
        rm_file_spec(s, p).1 is Ok,
{
    if s.files.contains_key(p) {
        let ids = s.files[p].chunks;
        assert forall|c: Seq<u8>| #[trigger] count_of(s.counts, c) >= occ(ids, c) by {
            lemma_refs_remove(s.files, p, c);
        }
        assert(!exists|i: int| 0 <= i < ids.len() && count_of(s.counts, ids[i]) < occ(ids, ids[i]));
        lemma_release_all_counts(s, ids);
        lemma_release_all_frame(s, ids);
        let r = rm_file_spec(s, p).0;
        assert forall|c: Seq<u8>| #[trigger] count_of(r.counts, c) == refs(r.files, c) + refs(r.pending, c) by {
            lemma_refs_remove(s.files, p, c);
        }
    }
}

} // verus!
