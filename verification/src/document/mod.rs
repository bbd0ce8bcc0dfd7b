//! Document Engine: ingesting, updating and deleting documents.

use vstd::prelude::*;

pub mod chunk;
pub mod model;

use crate::document::chunk::{chunk_text, count_pieces, cut, Chunking};
use crate::document::model::{
    added, among, can_add, can_chunk, changed_below, declared_as, first_positions, free_id,
    has_position, id_of_another, inserted, lemma_changed_below_new, lemma_changed_below_reused,
    lemma_missing, lemma_new_row, lemma_new_row_wf, lemma_owned_from_rechunked, lemma_rechunked_new,
    lemma_rechunked_reused, lemma_rechunked_wf, lemma_reversioned_wf, lemma_set_last_identity,
    lemma_wf_delete_document, lemma_wf_without_chunks, lemma_without_none, lemma_without_same,
    lemma_without_twice, matched, missing, named, new_id, new_row, only, owned_by, owned_from,
    rechunked, reversioned, room, unchanged, untouched, updated, upserted, without_chunks,
    without_document, Naming,
};
use crate::error::Error;
use crate::seqs::{
    first_where, lemma_filter_member, lemma_filter_same, lemma_filter_twice, lemma_first_absent,
    lemma_first_at,
};
use crate::storage::references::{
    accepted, has_document, lemma_accepted_chain, lemma_accepted_self, lemma_accepted_step,
};
use crate::storage::rows::position_where;
use crate::storage::settings::{get_f64, get_usize, reads_as, setting_value, usize_setting};
use crate::storage::tables::{
    next_chunk_id, next_document_id, Change, Chunk, ChunkRow, Document, EmbeddingRow, RelationRow,
    Scope, Tables,
};
use crate::storage::{
    bracketed, extends, lemma_bracketed, lemma_extends_chain, lemma_extends_self,
    lemma_extends_step, lemma_replays_chain, lemma_replays_step, replays, Database,
};
use crate::text::{
    blank, chars_of, decimal_string, given_text, numeral, own_text, push_numeral, texts,
};
use crate::util::unix_timestamp;
use std::collections::hash_map::DefaultHasher;
use std::hash::Hasher;
use vstd::std_specs::hash::DefaultHasherAdditionalSpecFns;
use vstd::utf8::encode_utf8;

verus! {

/// The document with the given identity, by its index.
fn find_document(db: &Database, external_id: &str) -> (r: Option<usize>)
    ensures
        match r {
            Some(i) => i < db.documents@.len() && first_where(
                db@.documents,
                named(external_id@),
            ) == Some(db.documents@[i as int]@),
            None => first_where(db@.documents, named(external_id@)) is None,
        },
{
    let wanted = external_id.to_owned();
    let ghost p = named(external_id@);
    let cond = |d: &Document| -> (b: bool)
        ensures
            b == p(d@),
        {
            match &d.external_id {
                Some(s) => *s == wanted,
                None => false,
            }
        };
    let found = position_where(&db.documents, cond, Ghost(p));
    proof {
        let s = db@.documents;
        assert forall|k: int| 0 <= k < s.len() implies #[trigger] s[k] == db.documents@[k]@ by {}
        match found {
            Some(i) => {
                lemma_first_at(s, p, i as int);
            },
            None => {
                lemma_first_absent(s, p);
            },
        }
    }
    found
}

/// The document that was given the identity by the caller, by its index.
fn find_declared(db: &Database, external_id: &str) -> (r: Option<usize>)
    ensures
        match r {
            Some(i) => i < db.documents@.len() && matched(db@, Some(external_id@)) == Some(
                db.documents@[i as int]@,
            ),
            None => matched(db@, Some(external_id@)) is None,
        },
{
    let wanted = external_id.to_owned();
    let ghost p = declared_as(external_id@);
    let cond = |d: &Document| -> (b: bool)
        ensures
            b == p(d@),
        {
            d.declared && match &d.external_id {
                Some(s) => *s == wanted,
                None => false,
            }
        };
    let found = position_where(&db.documents, cond, Ghost(p));
    proof {
        let s = db@.documents;
        assert forall|k: int| 0 <= k < s.len() implies #[trigger] s[k] == db.documents@[k]@ by {}
        match found {
            Some(i) => {
                lemma_first_at(s, p, i as int);
            },
            None => {
                lemma_first_absent(s, p);
            },
        }
    }
    found
}

/// The row id for a document without an identity: the next one that no document has
/// as its identity already, if there is one.
fn free_document_id(db: &Database) -> (r: Option<i64>)
    ensures
        match r {
            Some(id) => id == new_id(db@, None),
            None => new_id(db@, None) > i64::MAX,
        },
{
    let n = db.documents.len();
    let mut id: i64 = if n == 0 {
        1
    } else {
        proof {
            assert(db@.documents.last() == db.documents@[n - 1]@);
        }
        if db.documents[n - 1].id == i64::MAX {
            return None;
        }
        db.documents[n - 1].id + 1
    };
    loop
        invariant
            free_id(db@.documents, id as int) == new_id(db@, None),
        decreases i64::MAX - id,
    {
        let text = decimal_string(id);
        if find_document(db, text.as_str()).is_none() {
            return Some(id);
        }
        if id == i64::MAX {
            proof {
                assert(free_id(db@.documents, id + 1) == id + 1);
            }
            return None;
        }
        id += 1;
    }
}

/// Deletes the relations that touch a chunk.
fn purge_relations_for_chunk(db: &mut Database, chunk_id: i64)
    requires
        old(db).wf(),
    ensures
        final(db).wf(),
        final(db)@ == (Tables {
            relations: old(db)@.relations.filter(
                |r: RelationRow| r.from_chunk_id != chunk_id && r.to_chunk_id != chunk_id,
            ),
            ..old(db)@
        }),
        extends(*old(db), *final(db)),
        accepted(*old(db), *final(db)),
{
    db.delete_relations(chunk_id);
    proof {
        lemma_extends_self(*old(db), *old(db));
        lemma_accepted_self(*old(db), *old(db));
        lemma_extends_step(*old(db), *old(db), *db, Change::DeleteRelations { chunk_id });
        lemma_accepted_step(*old(db), *old(db), *db, Change::DeleteRelations { chunk_id });
        crate::seqs::lemma_filter_pairwise(
            old(db)@.relations,
            |r: RelationRow| r.from_chunk_id != chunk_id && r.to_chunk_id != chunk_id,
            crate::storage::tables::distinct_pairs(),
        );
    }
}

/// Deletes a chunk with its embedding and its relations.
fn delete_chunk_completely(db: &mut Database, chunk_id: i64)
    requires
        old(db).wf(),
    ensures
        final(db).wf(),
        final(db)@ == without_chunks(old(db)@, only(chunk_id)),
        extends(*old(db), *final(db)),
        accepted(*old(db), *final(db)),
{
    let ghost gone = only(chunk_id);
    purge_relations_for_chunk(db, chunk_id);
    let ghost mid = *db;
    db.delete_embedding(chunk_id);
    let ghost mid2 = *db;
    db.delete_chunk_row(chunk_id);
    proof {
        lemma_extends_step(*old(db), mid, mid2, Change::DeleteEmbedding { chunk_id });
        lemma_accepted_step(*old(db), mid, mid2, Change::DeleteEmbedding { chunk_id });
        lemma_extends_step(*old(db), mid2, *db, Change::DeleteChunk { chunk_id });
        lemma_accepted_step(*old(db), mid2, *db, Change::DeleteChunk { chunk_id });
        lemma_filter_same(
            old(db)@.chunks,
            |c: ChunkRow| c.id != chunk_id,
            |c: ChunkRow| !gone(c.id),
        );
        lemma_filter_same(
            old(db)@.embeddings,
            |e: EmbeddingRow| e.chunk_id != chunk_id,
            |e: EmbeddingRow| !gone(e.chunk_id),
        );
        lemma_filter_same(
            old(db)@.relations,
            |r: RelationRow| r.from_chunk_id != chunk_id && r.to_chunk_id != chunk_id,
            |r: RelationRow| !gone(r.from_chunk_id) && !gone(r.to_chunk_id),
        );
        lemma_wf_without_chunks(old(db)@, gone);
    }
}

/// Deletes several chunks with their embeddings and relations.
fn delete_chunks(db: &mut Database, chunk_ids: &Vec<i64>)
    requires
        old(db).wf(),
    ensures
        final(db).wf(),
        final(db)@ == without_chunks(old(db)@, among(chunk_ids@)),
        extends(*old(db), *final(db)),
        accepted(*old(db), *final(db)),
{
    let mut i: usize = 0;
    proof {
        lemma_extends_self(*old(db), *db);
        lemma_accepted_self(*old(db), *db);
        lemma_without_none(db@, among(chunk_ids@.take(0)));
    }
    while i < chunk_ids.len()
        invariant
            i <= chunk_ids@.len(),
            db.wf(),
            db@ == without_chunks(old(db)@, among(chunk_ids@.take(i as int))),
            extends(*old(db), *db),
            accepted(*old(db), *db),
        decreases chunk_ids@.len() - i,
    {
        let ghost before = *db;
        delete_chunk_completely(db, chunk_ids[i]);
        proof {
            lemma_extends_chain(*old(db), before, *db);
            lemma_accepted_chain(*old(db), before, *db);
            let a = among(chunk_ids@.take(i as int));
            let b = only(chunk_ids@[i as int]);
            let both = among(chunk_ids@.take(i + 1));
            assert(chunk_ids@.take(i + 1) =~= chunk_ids@.take(i as int).push(chunk_ids@[i as int]));
            assert forall|x: i64| #[trigger] both(x) == (a(x) || b(x)) by {
                let s = chunk_ids@.take(i as int);
                let y = chunk_ids@[i as int];
                if s.contains(x) {
                    let k = choose|k: int| 0 <= k < s.len() && s[k] == x;
                    assert(s.push(y)[k] == x);
                }
                if x == y {
                    assert(s.push(y)[s.len() as int] == x);
                }
                if s.push(y).contains(x) {
                    let k = choose|k: int| 0 <= k < s.push(y).len() && s.push(y)[k] == x;
                    if k < s.len() {
                        assert(s[k] == x);
                    }
                }
            }
            lemma_without_twice(old(db)@, a, b, both);
        }
        i += 1;
    }
    proof {
        assert(chunk_ids@.take(chunk_ids@.len() as int) =~= chunk_ids@);
    }
}

/// The ids of the document's chunks from a position on.
fn chunk_ids_from(db: &Database, document_id: i64, from_position: i64) -> (r: Vec<i64>)
    ensures
        forall|x: i64| #[trigger]
            among(r@)(x) == owned_from(db@.chunks, document_id, from_position as int)(x),
{
    let mut chunk_ids: Vec<i64> = Vec::new();
    let mut i: usize = 0;
    while i < db.chunks.len()
        invariant
            i <= db.chunks@.len(),
            forall|x: i64| #[trigger]
                chunk_ids@.contains(x) <==> exists|k: int|
                    0 <= k < i && (#[trigger] db@.chunks[k]).id == x && db@.chunks[k].document_id
                        == document_id && db@.chunks[k].position >= from_position,
        decreases db.chunks@.len() - i,
    {
        let ghost before = chunk_ids@;
        proof {
            assert(db@.chunks[i as int] == db.chunks@[i as int]@);
        }
        if db.chunks[i].document_id == document_id && db.chunks[i].position >= from_position {
            chunk_ids.push(db.chunks[i].id);
            proof {
                let y = db.chunks@[i as int].id;
                assert(chunk_ids@[before.len() as int] == y);
                assert forall|x: i64| #[trigger] chunk_ids@.contains(x) <==> (before.contains(x)
                    || x == y) by {
                    if before.contains(x) {
                        let k = choose|k: int| 0 <= k < before.len() && before[k] == x;
                        assert(chunk_ids@[k] == x);
                    }
                    if chunk_ids@.contains(x) && x != y {
                        let k = choose|k: int| 0 <= k < chunk_ids@.len() && chunk_ids@[k] == x;
                        assert(before[k] == x);
                    }
                }
                assert forall|x: i64| #[trigger] chunk_ids@.contains(x) <==> exists|k: int|
                    0 <= k < i + 1 && (#[trigger] db@.chunks[k]).id == x
                        && db@.chunks[k].document_id == document_id && db@.chunks[k].position
                        >= from_position by {
                    if before.contains(x) {
                        let k = choose|k: int|
                            0 <= k < i && (#[trigger] db@.chunks[k]).id == x
                                && db@.chunks[k].document_id == document_id
                                && db@.chunks[k].position >= from_position;
                        assert(db@.chunks[k].id == x);
                    }
                    if x == y {
                        assert(db@.chunks[i as int].id == x);
                    }
                }
            }
        }
        i += 1;
    }
    chunk_ids
}

/// Deletes the document's chunks from a position on, with all that depends on them.
fn delete_chunks_from_position(db: &mut Database, document_id: i64, from_position: i64)
    requires
        old(db).wf(),
    ensures
        final(db).wf(),
        final(db)@ == without_chunks(
            old(db)@,
            owned_from(old(db)@.chunks, document_id, from_position as int),
        ),
        extends(*old(db), *final(db)),
        accepted(*old(db), *final(db)),
{
    let orphaned_ids = chunk_ids_from(db, document_id, from_position);
    delete_chunks(db, &orphaned_ids);
    proof {
        lemma_without_same(
            old(db)@,
            among(orphaned_ids@),
            owned_from(old(db)@.chunks, document_id, from_position as int),
        );
    }
}

/// Cuts the text anew and gives each position of the document its piece. A
/// position that already existed keeps its chunk id; where its text is another one
/// now its relations are purged, since they were judged on the old text. Positions
/// that no longer exist are deleted with everything that depends on them.
fn upsert_chunks(
    db: &mut Database,
    document_id: i64,
    extracted: &str,
    version: i64,
    chunking: Chunking,
)
    requires
        old(db).wf(),
        has_document(old(db)@, document_id),
        can_chunk(old(db)@, extracted@, chunking),
    ensures
        final(db).wf(),
        final(db)@ == upserted(old(db)@, document_id, cut(extracted@, chunking), version),
        extends(*old(db), *final(db)),
        accepted(*old(db), *final(db)),
{
    let chunks = chunk_text(extracted, chunking.size, chunking.overlap);
    let ghost ps = cut(extracted@, chunking);
    let ghost t = db@;
    proof {
        assert(texts(chunks@).len() == chunks@.len());
        lemma_extends_self(*old(db), *db);
        lemma_accepted_self(*old(db), *db);
        assert(rechunked(t.chunks, document_id, ps, version, 0) =~= t.chunks);
        crate::seqs::lemma_filter_all(
            t.relations,
            untouched(changed_below(t.chunks, document_id, ps, 0)),
        );
    }
    let mut position: usize = 0;
    while position < chunks.len()
        invariant
            position <= chunks@.len(),
            t == old(db)@,
            t.wf(),
            has_document(t, document_id),
            texts(chunks@) == ps,
            ps.len() == chunks@.len(),
            room(t.chunks, ps.len()),
            db.wf(),
            db@ == first_positions(t, document_id, ps, version, position as int),
            extends(*old(db), *db),
            accepted(*old(db), *db),
        decreases chunks@.len() - position,
    {
        let place = position as i64;
        let text = chunks[position].clone();
        let ghost n = position as int;
        let ghost before = *db;
        proof {
            assert(ps[n] == chunks@[n]@);
            lemma_rechunked_wf(t.chunks, document_id, ps, version, n + 1);
            lemma_missing(t.chunks, document_id, n);
        }
        let ghost p = |c: ChunkRow| c.document_id == document_id && c.position == place;
        let cond = |c: &Chunk| -> (b: bool)
            ensures
                b == p(c@),
            { c.document_id == document_id && c.position == place };
        let existing = position_where(&db.chunks, cond, Ghost(p));
        proof {
            assert forall|k: int| 0 <= k < db@.chunks.len() implies #[trigger] db@.chunks[k]
                == db.chunks@[k]@ by {}
            assert forall|k: int| 0 <= k < t.chunks.len() implies (
            #[trigger] db@.chunks[k]).position == t.chunks[k].position
                && db@.chunks[k].document_id == t.chunks[k].document_id && db@.chunks[k].id
                == t.chunks[k].id by {}
            assert forall|k: int| t.chunks.len() <= k < db@.chunks.len() implies (
            #[trigger] db@.chunks[k]).position < n by {
                let m = missing(t.chunks, document_id, n);
                assert(0 <= m[k - t.chunks.len()] < n);
            }
        }
        match existing {
            Some(i) => {
                let chunk_id = db.chunks[i].id;
                let same = db.chunks[i].text == text;
                proof {
                    assert(db@.chunks[i as int].position == n);
                    assert(db@.chunks[i as int].text == t.chunks[i as int].text);
                    lemma_rechunked_reused(t.chunks, document_id, ps, version, n, i as int);
                    lemma_changed_below_reused(t.chunks, document_id, ps, n, i as int);
                }
                db.set_chunk(chunk_id, text, version);
                let ghost mid = *db;
                proof {
                    lemma_extends_step(
                        *old(db),
                        before,
                        mid,
                        Change::SetChunk { chunk_id, text, version },
                    );
                    lemma_accepted_step(
                        *old(db),
                        before,
                        mid,
                        Change::SetChunk { chunk_id, text, version },
                    );
                    let want = rechunked(t.chunks, document_id, ps, version, n + 1);
                    assert forall|k: int| 0 <= k < want.len() implies mid@.chunks[k]
                        == want[k] by {
                        if k < i {
                            assert(crate::storage::tables::chunk_order()(
                                before@.chunks[k],
                                before@.chunks[i as int],
                            ));
                        } else if k > i {
                            assert(crate::storage::tables::chunk_order()(
                                before@.chunks[i as int],
                                before@.chunks[k],
                            ));
                        }
                    }
                    assert(mid@.chunks =~= want);
                }
                if same {
                    proof {
                        lemma_filter_same(
                            t.relations,
                            untouched(changed_below(t.chunks, document_id, ps, n)),
                            untouched(changed_below(t.chunks, document_id, ps, n + 1)),
                        );
                    }
                } else {
                    purge_relations_for_chunk(db, chunk_id);
                    proof {
                        lemma_extends_chain(*old(db), mid, *db);
                        lemma_accepted_chain(*old(db), mid, *db);
                        lemma_filter_twice(
                            t.relations,
                            untouched(changed_below(t.chunks, document_id, ps, n)),
                            |r: RelationRow|
                                r.from_chunk_id != chunk_id && r.to_chunk_id != chunk_id,
                            untouched(changed_below(t.chunks, document_id, ps, n + 1)),
                        );
                    }
                }
            },
            None => {
                proof {
                    if has_position(t.chunks, document_id, n) {
                        let k = choose|k: int|
                            0 <= k < t.chunks.len() && (#[trigger] t.chunks[k]).document_id
                                == document_id && t.chunks[k].position == n;
                        assert(p(db@.chunks[k]));
                    }
                    lemma_rechunked_new(t.chunks, document_id, ps, version, n);
                    lemma_changed_below_new(t.chunks, document_id, ps, n);
                    lemma_filter_same(
                        t.relations,
                        untouched(changed_below(t.chunks, document_id, ps, n)),
                        untouched(changed_below(t.chunks, document_id, ps, n + 1)),
                    );
                    if db@.chunks.len() > t.chunks.len() {
                        assert(db@.chunks.last() == db@.chunks[db@.chunks.len() - 1]);
                    }
                }
                let id = next_id_for_chunk(db);
                let row = Chunk { id, document_id, text, position: place, version };
                db.insert_chunk(row);
                proof {
                    lemma_extends_step(*old(db), before, *db, Change::InsertChunk(row));
                    lemma_accepted_step(*old(db), before, *db, Change::InsertChunk(row));
                }
            },
        }
        proof {
            assert(db@.chunks =~= rechunked(t.chunks, document_id, ps, version, n + 1));
            crate::seqs::lemma_filter_pairwise(
                t.relations,
                untouched(changed_below(t.chunks, document_id, ps, n + 1)),
                crate::storage::tables::distinct_pairs(),
            );
        }
        position += 1;
    }
    let ghost mid = *db;
    delete_chunks_from_position(db, document_id, chunks.len() as i64);
    proof {
        lemma_extends_chain(*old(db), mid, *db);
        lemma_accepted_chain(*old(db), mid, *db);
        lemma_owned_from_rechunked(t.chunks, document_id, ps, version);
        lemma_without_same(
            mid@,
            owned_from(mid@.chunks, document_id, ps.len() as int),
            owned_from(t.chunks, document_id, ps.len() as int),
        );
    }
}

/// The row id that the next chunk gets.
fn next_id_for_chunk(db: &Database) -> (r: i64)
    requires
        next_chunk_id(db@.chunks) <= i64::MAX,
    ensures
        r == next_chunk_id(db@.chunks),
{
    let n = db.chunks.len();
    if n == 0 {
        1
    } else {
        proof {
            assert(db@.chunks.last() == db.chunks@[n - 1]@);
        }
        db.chunks[n - 1].id + 1
    }
}

/// The chunk size in tokens where the settings say none.
pub const DEFAULT_CHUNK_SIZE_TOKENS: usize = 1000;

/// The characters per token where the settings say none: the bit pattern of 3.5.
pub const DEFAULT_CHARS_PER_TOKEN: u64 = 0x400c_0000_0000_0000;

/// The share of a chunk that overlaps where the settings say none: the bit pattern of 0.125.
pub const DEFAULT_OVERLAP_RATIO: u64 = 0x3fc0_0000_0000_0000;

/// What the settings say of chunking: the size in tokens, the characters per token
/// and the share that overlaps, the latter two as `parse` reads them.
pub fn chunk_settings<P: Fn(&str) -> Option<u64>>(db: &Database, parse: P) -> (r: (
    usize,
    u64,
    u64,
))
    requires
        forall|s: &str| call_requires(parse, (s,)),
    ensures
        r.0 == usize_setting(db@.settings, "chunk_size"@, DEFAULT_CHUNK_SIZE_TOKENS),
        reads_as(
            parse,
            setting_value(db@.settings, "chars_per_token"@),
            DEFAULT_CHARS_PER_TOKEN,
            r.1,
        ),
        reads_as(
            parse,
            setting_value(db@.settings, "chunk_overlap"@),
            DEFAULT_OVERLAP_RATIO,
            r.2,
        ),
{
    let tokens = get_usize(db, "chunk_size", DEFAULT_CHUNK_SIZE_TOKENS);
    let chars_per_token = get_f64(db, "chars_per_token", DEFAULT_CHARS_PER_TOKEN, &parse);
    let overlap_ratio = get_f64(db, "chunk_overlap", DEFAULT_OVERLAP_RATIO, &parse);
    (tokens, chars_per_token, overlap_ratio)
}

/// Makes text out of what a document is given as.
pub trait DocumentExtractor {
    fn extract(&self, content: &str) -> String;
}

/// Markdown is its own text.
pub struct MarkdownExtractor;

impl DocumentExtractor for MarkdownExtractor {
    fn extract(&self, content: &str) -> (r: String)
        ensures
            r@ == content@,
    {
        content.to_owned()
    }
}

/// The fingerprint of a content: the standard library's hash of the text, in
/// hexadecimal. A text is hashed as its bytes, ended by a byte that no text holds.
pub open spec fn hash_of(content: Seq<char>) -> Seq<char> {
    numeral(
        DefaultHasher::spec_finish(seq![encode_utf8(content), seq![0xffu8]]) as nat,
        16,
    )
}

/// The fingerprint by which a changed content is told from an unchanged one.
pub fn content_hash(content: &str) -> (r: String)
    ensures
        r@ == hash_of(content@),
{
    let mut hasher = DefaultHasher::new();
    hasher.write(content.as_bytes());
    let end: [u8; 1] = [0xff];
    hasher.write(&end);
    let mut r = String::new();
    push_numeral(&mut r, hasher.finish(), 16);
    proof {
        assert(end@ =~= seq![0xffu8]);
        assert(hasher@ =~= seq![encode_utf8(content@), seq![0xffu8]]);
        assert(r@ =~= hash_of(content@));
    }
    r
}

/// Stores a new document.
fn insert_document(
    db: &mut Database,
    name: &str,
    extracted: &str,
    hash: String,
    metadata: Option<&str>,
    tags: Option<&str>,
    external_id: Option<&str>,
    chunking: Chunking,
    created_at: i64,
) -> (r: Result<i64, Error>)
    requires
        old(db).wf(),
        matched(old(db)@, given_text(external_id)) is None,
        id_of_another(old(db)@, given_text(external_id)) || (can_chunk(
            old(db)@,
            extracted@,
            chunking,
        ) && new_id(old(db)@, given_text(external_id)) <= i64::MAX),
    ensures
        final(db).wf(),
        extends(*old(db), *final(db)),
        accepted(*old(db), *final(db)),
        (final(db)@, r) == inserted(
            old(db)@,
            naming(name, metadata, tags, external_id),
            extracted@,
            hash@,
            chunking,
            created_at,
        ),
        r is Err ==> final(db).changes@ == old(db).changes@,
{
    let ghost t = db@;
    let ghost given = naming(name, metadata, tags, external_id);
    proof {
        lemma_extends_self(*old(db), *db);
        lemma_accepted_self(*old(db), *db);
    }
    let document_id: i64 = match external_id {
        Some(id) => {
            if find_document(db, id).is_some() {
                return Err(Error::DuplicateExternalId);
            }
            next_id_for_document(db)
        },
        None => match free_document_id(db) {
            Some(id) => id,
            // Never so: there is an id that is free.
            None => 0,
        },
    };
    let row = Document {
        id: document_id,
        name: name.to_owned(),
        external_id: own_text(external_id),
        declared: external_id.is_some(),
        version: 1,
        hash,
        created_at,
        metadata: own_text(metadata),
        tags: own_text(tags),
    };
    proof {
        lemma_new_row(t, given, hash@, created_at);
        lemma_new_row_wf(t, row@);
        lemma_new_row_wf(t, new_row(t, given, hash@, created_at));
    }
    db.insert_document(row);
    let ghost d1 = *db;
    proof {
        lemma_extends_step(*old(db), *old(db), d1, Change::InsertDocument(row));
        lemma_accepted_step(*old(db), *old(db), d1, Change::InsertDocument(row));
    }
    if external_id.is_none() {
        let fallback = decimal_string(document_id);
        let ghost change = Change::SetExternalId { document_id, external_id: fallback };
        db.set_external_id(document_id, fallback);
        proof {
            lemma_set_last_identity(t.documents, row@, fallback@);
            assert(db@.documents == t.documents.push(new_row(t, given, hash@, created_at)));
            lemma_extends_step(*old(db), d1, *db, change);
            lemma_accepted_step(*old(db), d1, *db, change);
        }
    }
    let ghost d2 = *db;
    proof {
        assert(d2@.documents[t.documents.len() as int].id == document_id);
    }
    upsert_chunks(db, document_id, extracted, 1, chunking);
    proof {
        lemma_extends_chain(*old(db), d2, *db);
        lemma_accepted_chain(*old(db), d2, *db);
    }
    Ok(document_id)
}

/// Replaces the content of a stored document.
fn update_document(
    db: &mut Database,
    at: usize,
    extracted: &str,
    hash: String,
    chunking: Chunking,
) -> (r: i64)
    requires
        old(db).wf(),
        can_chunk(old(db)@, extracted@, chunking),
        at < old(db).documents@.len(),
        old(db).documents@[at as int].version < i64::MAX,
    ensures
        final(db).wf(),
        extends(*old(db), *final(db)),
        accepted(*old(db), *final(db)),
        r == old(db).documents@[at as int].id,
        final(db)@ == updated(
            old(db)@,
            old(db).documents@[at as int]@,
            extracted@,
            hash@,
            chunking,
        ),
{
    let document_id = db.documents[at].id;
    let version = db.documents[at].version + 1;
    let ghost change = Change::SetVersion { document_id, hash, version };
    db.set_version(document_id, hash, version);
    let ghost d1 = *db;
    proof {
        lemma_extends_self(*old(db), *old(db));
        lemma_accepted_self(*old(db), *old(db));
        lemma_extends_step(*old(db), *old(db), d1, change);
        lemma_accepted_step(*old(db), *old(db), d1, change);
        lemma_reversioned_wf(old(db)@, document_id, hash@, version);
        assert(d1@.documents =~= old(db)@.documents.map_values(
            reversioned(document_id, hash@, version),
        ));
        assert(d1@.documents[at as int].id == document_id);
    }
    upsert_chunks(db, document_id, extracted, version, chunking);
    proof {
        lemma_extends_chain(*old(db), d1, *db);
        lemma_accepted_chain(*old(db), d1, *db);
    }
    document_id
}

/// What the caller stores a document with.
pub open spec fn naming(
    name: &str,
    metadata: Option<&str>,
    tags: Option<&str>,
    external_id: Option<&str>,
) -> Naming {
    Naming {
        name: name@,
        metadata: given_text(metadata),
        tags: given_text(tags),
        external_id: given_text(external_id),
    }
}

/// Tells whether a document can be added: whether there is room for what it
/// stores, and whether its content can be cut.
pub fn check_add(
    db: &Database,
    content: &str,
    external_id: Option<&str>,
    chunking: Chunking,
) -> (r: bool)
    ensures
        r == can_add(
            db@,
            given_text(external_id),
            content@,
            hash_of(content@),
            chunking,
        ),
{
    let found: Option<usize> = match external_id {
        Some(id) => {
            if blank(id) {
                return true;
            }
            let found = find_declared(db, id);
            if found.is_none() && find_document(db, id).is_some() {
                return true;
            }
            found
        },
        None => None,
    };
    let len = chars_of(content).len();
    let cuttable = len <= chunking.size || chunking.overlap < chunking.size;
    let n = db.chunks.len();
    proof {
        if n > 0 {
            assert(db@.chunks.last() == db.chunks@[n - 1]@);
        }
        if db.documents@.len() > 0 {
            assert(db@.documents.last() == db.documents@[db.documents@.len() - 1]@);
        }
    }
    let last: i128 = if n == 0 {
        0
    } else {
        db.chunks[n - 1].id as i128
    };
    let fits = if cuttable {
        let count = count_pieces(len, chunking) as i128;
        count <= i64::MAX as i128 && last + count <= i64::MAX as i128
    } else {
        false
    };
    match found {
        Some(i) => {
            if db.documents[i].hash == content_hash(content) {
                true
            } else {
                fits && db.documents[i].version < i64::MAX
            }
        },
        None => {
            let m = db.documents.len();
            let numbered = match external_id {
                Some(_) => m == 0 || db.documents[m - 1].id < i64::MAX,
                None => free_document_id(db).is_some(),
            };
            fits && numbered
        },
    }
}

/// Adds a document at a given reading of the clock.
pub fn add_document_at(
    db: &mut Database,
    name: &str,
    content: &str,
    metadata: Option<&str>,
    tags: Option<&str>,
    external_id: Option<&str>,
    chunking: Chunking,
    clock: Option<i64>,
) -> (r: Result<i64, Error>)
    requires
        old(db).wf(),
        can_add(old(db)@, given_text(external_id), content@, hash_of(content@), chunking),
    ensures
        final(db).wf(),
        extends(*old(db), *final(db)),
        accepted(*old(db), *final(db)),
        (final(db)@, r) == added(
            old(db)@,
            naming(name, metadata, tags, external_id),
            content@,
            hash_of(content@),
            chunking,
            clock,
        ),
        r is Err || unchanged(old(db)@, given_text(external_id), hash_of(content@))
            ==> final(db).changes@ == old(db).changes@,
{
    proof {
        lemma_extends_self(*old(db), *db);
        lemma_accepted_self(*old(db), *db);
    }
    if let Some(id) = external_id {
        if blank(id) {
            return Err(Error::BlankExternalId);
        }
    }
    let extracted = MarkdownExtractor.extract(content);
    let hash = content_hash(extracted.as_str());
    let existing: Option<usize> = match external_id {
        Some(id) => find_declared(db, id),
        None => None,
    };
    match existing {
        Some(at) => {
            if db.documents[at].hash == hash {
                return Ok(db.documents[at].id);
            }
            Ok(update_document(db, at, extracted.as_str(), hash, chunking))
        },
        None => {
            match clock {
                Some(now) => insert_document(
                    db,
                    name,
                    extracted.as_str(),
                    hash,
                    metadata,
                    tags,
                    external_id,
                    chunking,
                    now,
                ),
                None => Err(Error::ClockBeforeEpoch),
            }
        },
    }
}

/// Adds a document, or updates the one with the same identity. `external_id` is
/// the caller's stable identity for the document; without one the document is
/// always new, gets its own id as its identity, and is never taken for the same one
/// later. A document whose content has not changed is left alone; one whose content has changed gets the next version
/// and new chunks.
pub fn add_document(
    db: &mut Database,
    name: &str,
    content: &str,
    metadata: Option<&str>,
    tags: Option<&str>,
    external_id: Option<&str>,
    chunking: Chunking,
) -> (r: Result<i64, Error>)
    requires
        old(db).wf(),
        can_add(old(db)@, given_text(external_id), content@, hash_of(content@), chunking),
    ensures
        final(db).wf(),
        extends(*old(db), *final(db)),
        accepted(*old(db), *final(db)),
        exists|clock: Option<i64>|
            (final(db)@, r) == #[trigger] added(
                old(db)@,
                naming(name, metadata, tags, external_id),
                content@,
                hash_of(content@),
                chunking,
                clock,
            ),
        r is Err || unchanged(old(db)@, given_text(external_id), hash_of(content@))
            ==> final(db).changes@ == old(db).changes@,
{
    add_document_at(
        db,
        name,
        content,
        metadata,
        tags,
        external_id,
        chunking,
        unix_timestamp(),
    )
}

/// The row id that the next document gets.
fn next_id_for_document(db: &Database) -> (r: i64)
    requires
        next_document_id(db@.documents) <= i64::MAX,
    ensures
        r == next_document_id(db@.documents),
{
    let n = db.documents.len();
    if n == 0 {
        1
    } else {
        proof {
            assert(db@.documents.last() == db.documents@[n - 1]@);
        }
        db.documents[n - 1].id + 1
    }
}

/// Deletes the document with the given identity, and everything that depends on it.
pub fn delete_document(db: &mut Database, external_id: &str) -> (r: Result<bool, Error>)
    requires
        old(db).wf(),
    ensures
        final(db).wf(),
        replays(*old(db), *final(db)),
        accepted(*old(db), *final(db)),
        match first_where(old(db)@.documents, named(external_id@)) {
            Some(d) => r == Ok::<bool, Error>(true) && final(db)@ == without_document(
                old(db)@,
                d.id,
            ) && bracketed(*old(db), *final(db), Scope::DeleteDocument),
            None => final(db)@ == old(db)@ && final(db).changes@ == old(db).changes@ && (r matches Err(Error::UnknownDocument {
                external_id: e,
            }) && e@ == external_id@),
        },
{
    proof {
        lemma_extends_self(*old(db), *db);
        lemma_accepted_self(*old(db), *db);
    }
    let document_id: i64 = match find_document(db, external_id) {
        Some(i) => db.documents[i].id,
        None => {
            return Err(Error::UnknownDocument { external_id: external_id.to_owned() });
        },
    };
    db.savepoint(Scope::DeleteDocument);
    let ghost d1 = *db;
    let chunk_ids = chunk_ids_from(db, document_id, 0);
    delete_chunks(db, &chunk_ids);
    let ghost d2 = *db;
    proof {
        let a = among(chunk_ids@);
        let b = owned_by(d1@.chunks, document_id);
        let c = owned_from(d1@.chunks, document_id, 0);
        assert forall|x: i64| #[trigger] a(x) == b(x) by {
            assert(a(x) == c(x));
            if b(x) {
                let i = choose|i: int|
                    0 <= i < d1@.chunks.len() && (#[trigger] d1@.chunks[i]).id == x
                        && d1@.chunks[i].document_id == document_id;
                assert(d1@.chunks[i].position >= 0);
            }
        }
        lemma_without_same(d1@, a, b);
        let kept = |c: ChunkRow| !b(c.id);
        assert forall|i: int| 0 <= i < d2@.chunks.len() implies (
        #[trigger] d2@.chunks[i]).document_id != document_id by {
            lemma_filter_member(d1@.chunks, kept, i);
        }
    }
    db.delete_document_row(document_id);
    let ghost d3 = *db;
    db.release(Scope::DeleteDocument);
    proof {
        lemma_replays_step(*old(db), *old(db), d1, Change::Savepoint(Scope::DeleteDocument));
        lemma_accepted_step(*old(db), *old(db), d1, Change::Savepoint(Scope::DeleteDocument));
        lemma_replays_chain(*old(db), d1, d2);
        lemma_accepted_chain(*old(db), d1, d2);
        lemma_replays_step(*old(db), d2, d3, Change::DeleteDocument { document_id });
        lemma_accepted_step(*old(db), d2, d3, Change::DeleteDocument { document_id });
        lemma_accepted_step(*old(db), d3, *db, Change::Release(Scope::DeleteDocument));
        lemma_extends_step(d1, d2, d3, Change::DeleteDocument { document_id });
        lemma_bracketed(*old(db), d1, d3, *db, Scope::DeleteDocument);
        lemma_wf_delete_document(d2@, document_id);
    }
    Ok(true)
}

} // verus!
