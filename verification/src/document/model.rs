//! What the Document Engine does to the tables.

use vstd::prelude::*;

use crate::document::chunk::{can_cut, cut, Chunking};
use crate::error::Error;
use crate::seqs::{
    first_where, lemma_filter_member, lemma_filter_pairwise, lemma_filter_same, lemma_filter_twice,
    lemma_first_exists, lemma_map_pairwise, lemma_push_pairwise, pairwise,
};
use crate::storage::tables::{
    chunk_order, distinct_external_ids, distinct_pairs, distinct_positions, document_order,
    embedding_order, next_chunk_id, next_document_id, ChunkRow, DocumentRow, EmbeddingRow,
    RelationRow, Tables,
};
use crate::text::{decimal, is_blank};

verus! {

/// The chunk with the given id belongs to the document.
pub open spec fn owned(chunks: Seq<ChunkRow>, document_id: i64, chunk_id: i64) -> bool {
    exists|i: int|
        0 <= i < chunks.len() && (#[trigger] chunks[i]).id == chunk_id && chunks[i].document_id
            == document_id
}

/// The tables without some chunks, and without every embedding and relation of those.
pub open spec fn without_chunks(t: Tables, gone: spec_fn(i64) -> bool) -> Tables {
    Tables {
        chunks: t.chunks.filter(|c: ChunkRow| !gone(c.id)),
        embeddings: t.embeddings.filter(|e: EmbeddingRow| !gone(e.chunk_id)),
        relations: t.relations.filter(
            |r: RelationRow| !gone(r.from_chunk_id) && !gone(r.to_chunk_id),
        ),
        ..t
    }
}

/// Being the given chunk.
pub open spec fn only(chunk_id: i64) -> spec_fn(i64) -> bool {
    |x: i64| x == chunk_id
}

/// Being one of the given chunks.
pub open spec fn among(chunk_ids: Seq<i64>) -> spec_fn(i64) -> bool {
    |x: i64| chunk_ids.contains(x)
}

/// Being a chunk of the given document.
pub open spec fn owned_by(chunks: Seq<ChunkRow>, document_id: i64) -> spec_fn(i64) -> bool {
    |x: i64| owned(chunks, document_id, x)
}

/// The tables without a document and everything that depends on it.
pub open spec fn without_document(t: Tables, document_id: i64) -> Tables {
    Tables {
        documents: t.documents.filter(|d: DocumentRow| d.id != document_id),
        ..without_chunks(t, owned_by(t.chunks, document_id))
    }
}

/// Having the given identity, declared or not.
pub open spec fn named(external_id: Seq<char>) -> spec_fn(DocumentRow) -> bool {
    |d: DocumentRow| d.external_id == Some(external_id)
}

/// Having been given the identity by the caller.
pub open spec fn declared_as(external_id: Seq<char>) -> spec_fn(DocumentRow) -> bool {
    |d: DocumentRow| d.declared && d.external_id == Some(external_id)
}

/// Some document has the identity, declared or not.
pub open spec fn taken(s: Seq<DocumentRow>, external_id: Seq<char>) -> bool {
    first_where(s, named(external_id)) is Some
}

/// The first number from `k` on that no document has as its identity in decimal,
/// or one more than the largest row id where there is none.
pub open spec fn free_id(s: Seq<DocumentRow>, k: int) -> int
    decreases i64::MAX + 1 - k,
{
    if k > i64::MAX || !taken(s, decimal(k)) {
        k
    } else {
        free_id(s, k + 1)
    }
}

pub proof fn lemma_without_twice(
    t: Tables,
    a: spec_fn(i64) -> bool,
    b: spec_fn(i64) -> bool,
    both: spec_fn(i64) -> bool,
)
    requires
        forall|x: i64| #[trigger] both(x) == (a(x) || b(x)),
    ensures
        without_chunks(without_chunks(t, a), b) == without_chunks(t, both),
{
    lemma_filter_twice(
        t.chunks,
        |c: ChunkRow| !a(c.id),
        |c: ChunkRow| !b(c.id),
        |c: ChunkRow| !both(c.id),
    );
    lemma_filter_twice(
        t.embeddings,
        |e: EmbeddingRow| !a(e.chunk_id),
        |e: EmbeddingRow| !b(e.chunk_id),
        |e: EmbeddingRow| !both(e.chunk_id),
    );
    lemma_filter_twice(
        t.relations,
        |r: RelationRow| !a(r.from_chunk_id) && !a(r.to_chunk_id),
        |r: RelationRow| !b(r.from_chunk_id) && !b(r.to_chunk_id),
        |r: RelationRow| !both(r.from_chunk_id) && !both(r.to_chunk_id),
    );
}

pub proof fn lemma_without_same(t: Tables, a: spec_fn(i64) -> bool, b: spec_fn(i64) -> bool)
    requires
        forall|x: i64| #[trigger] a(x) == b(x),
    ensures
        without_chunks(t, a) == without_chunks(t, b),
{
    lemma_filter_same(t.chunks, |c: ChunkRow| !a(c.id), |c: ChunkRow| !b(c.id));
    lemma_filter_same(
        t.embeddings,
        |e: EmbeddingRow| !a(e.chunk_id),
        |e: EmbeddingRow| !b(e.chunk_id),
    );
    lemma_filter_same(
        t.relations,
        |r: RelationRow| !a(r.from_chunk_id) && !a(r.to_chunk_id),
        |r: RelationRow| !b(r.from_chunk_id) && !b(r.to_chunk_id),
    );
}

/// Leaving out no chunk changes nothing.
pub proof fn lemma_without_none(t: Tables, gone: spec_fn(i64) -> bool)
    requires
        forall|x: i64| !#[trigger] gone(x),
    ensures
        without_chunks(t, gone) == t,
{
    crate::seqs::lemma_filter_all(t.chunks, |c: ChunkRow| !gone(c.id));
    crate::seqs::lemma_filter_all(t.embeddings, |e: EmbeddingRow| !gone(e.chunk_id));
    crate::seqs::lemma_filter_all(
        t.relations,
        |r: RelationRow| !gone(r.from_chunk_id) && !gone(r.to_chunk_id),
    );
}

pub proof fn lemma_wf_without_chunks(t: Tables, gone: spec_fn(i64) -> bool)
    requires
        t.wf(),
    ensures
        without_chunks(t, gone).wf(),
{
    let u = without_chunks(t, gone);
    let p = |c: ChunkRow| !gone(c.id);
    lemma_filter_pairwise(t.chunks, p, chunk_order());
    lemma_filter_pairwise(t.chunks, p, distinct_positions());
    assert forall|i: int| 0 <= i < u.chunks.len() implies (#[trigger] u.chunks[i]).position
        >= 0 by {
        lemma_filter_member(t.chunks, p, i);
    }
    lemma_filter_pairwise(
        t.embeddings,
        |e: EmbeddingRow| !gone(e.chunk_id),
        embedding_order(),
    );
    lemma_filter_pairwise(
        t.relations,
        |r: RelationRow| !gone(r.from_chunk_id) && !gone(r.to_chunk_id),
        distinct_pairs(),
    );
}

pub proof fn lemma_wf_delete_document(t: Tables, document_id: i64)
    requires
        t.wf(),
    ensures
        (Tables {
            documents: t.documents.filter(|d: DocumentRow| d.id != document_id),
            ..t
        }).wf(),
{
    let p = |d: DocumentRow| d.id != document_id;
    lemma_filter_pairwise(t.documents, p, document_order());
    lemma_filter_pairwise(t.documents, p, distinct_external_ids());
}

/// The document has a chunk at the position.
pub open spec fn has_position(chunks: Seq<ChunkRow>, document_id: i64, position: int) -> bool {
    exists|i: int|
        0 <= i < chunks.len() && (#[trigger] chunks[i]).document_id == document_id
            && chunks[i].position == position
}

/// Being a chunk of the document at a position below `n` whose text is not the
/// piece for that position.
pub open spec fn changed_below(
    chunks: Seq<ChunkRow>,
    document_id: i64,
    pieces: Seq<Seq<char>>,
    n: int,
) -> spec_fn(i64) -> bool {
    |x: i64|
        exists|i: int|
            0 <= i < chunks.len() && (#[trigger] chunks[i]).id == x && chunks[i].document_id
                == document_id && chunks[i].position < n && chunks[i].text
                != pieces[chunks[i].position as int]
}

/// Being a chunk of the document at a position from `n` on.
pub open spec fn owned_from(chunks: Seq<ChunkRow>, document_id: i64, n: int) -> spec_fn(
    i64,
) -> bool {
    |x: i64|
        exists|i: int|
            0 <= i < chunks.len() && (#[trigger] chunks[i]).id == x && chunks[i].document_id
                == document_id && chunks[i].position >= n
}

/// Being a chunk whose text an update of the document changes or takes away.
pub open spec fn outdated(
    chunks: Seq<ChunkRow>,
    document_id: i64,
    pieces: Seq<Seq<char>>,
) -> spec_fn(i64) -> bool {
    |x: i64|
        changed_below(chunks, document_id, pieces, pieces.len() as int)(x) || owned_from(
            chunks,
            document_id,
            pieces.len() as int,
        )(x)
}

/// A chunk row after an update of its document: its position's new text and the
/// new version if it is one of the first `n`, else what it was.
pub open spec fn retexted(
    document_id: i64,
    pieces: Seq<Seq<char>>,
    version: i64,
    n: int,
) -> spec_fn(ChunkRow) -> ChunkRow {
    |c: ChunkRow|
        if c.document_id == document_id && c.position < n {
            ChunkRow { text: pieces[c.position as int], version, ..c }
        } else {
            c
        }
}

/// The positions below `n` that the document has no chunk at, in order.
pub open spec fn missing(chunks: Seq<ChunkRow>, document_id: i64, n: int) -> Seq<int>
    decreases n,
{
    if n <= 0 {
        Seq::empty()
    } else if has_position(chunks, document_id, n - 1) {
        missing(chunks, document_id, n - 1)
    } else {
        missing(chunks, document_id, n - 1).push(n - 1)
    }
}

/// The rows that the missing positions get, with the next free row ids.
pub open spec fn fresh_chunks(
    chunks: Seq<ChunkRow>,
    document_id: i64,
    pieces: Seq<Seq<char>>,
    version: i64,
    n: int,
) -> Seq<ChunkRow> {
    missing(chunks, document_id, n).map(
        |k: int, p: int|
            ChunkRow {
                id: (next_chunk_id(chunks) + k) as i64,
                document_id,
                text: pieces[p],
                position: p as i64,
                version,
            },
    )
}

/// The chunks once the first `n` positions of the document hold their new text.
pub open spec fn rechunked(
    chunks: Seq<ChunkRow>,
    document_id: i64,
    pieces: Seq<Seq<char>>,
    version: i64,
    n: int,
) -> Seq<ChunkRow> {
    chunks.map_values(retexted(document_id, pieces, version, n)) + fresh_chunks(
        chunks,
        document_id,
        pieces,
        version,
        n,
    )
}

/// Touching none of the given chunks.
pub open spec fn untouched(gone: spec_fn(i64) -> bool) -> spec_fn(RelationRow) -> bool {
    |r: RelationRow| !gone(r.from_chunk_id) && !gone(r.to_chunk_id)
}

/// The tables once the first `n` positions of the document hold their new text:
/// a reused position keeps its chunk, and loses the relations judged on the old text
/// where its text is another one now.
pub open spec fn first_positions(
    t: Tables,
    document_id: i64,
    pieces: Seq<Seq<char>>,
    version: i64,
    n: int,
) -> Tables {
    Tables {
        chunks: rechunked(t.chunks, document_id, pieces, version, n),
        relations: t.relations.filter(untouched(changed_below(t.chunks, document_id, pieces, n))),
        ..t
    }
}

/// The tables once a document holds the given pieces: every position has its
/// piece, and the positions beyond them are gone with all that depends on them.
pub open spec fn upserted(
    t: Tables,
    document_id: i64,
    pieces: Seq<Seq<char>>,
    version: i64,
) -> Tables {
    without_chunks(
        first_positions(t, document_id, pieces, version, pieces.len() as int),
        owned_from(t.chunks, document_id, pieces.len() as int),
    )
}

/// There are positions and row ids for that many chunks more.
pub open spec fn room(chunks: Seq<ChunkRow>, count: nat) -> bool {
    count <= i64::MAX && next_chunk_id(chunks) + count <= i64::MAX + 1
}

/// A text can be cut, and there are row ids for its chunks.
pub open spec fn can_chunk(t: Tables, text: Seq<char>, chunking: Chunking) -> bool {
    &&& can_cut(text.len() as int, chunking.size as int, chunking.overlap as int)
    &&& room(t.chunks, cut(text, chunking).len())
}

/// A document row with a new content: the next version, and the content's hash.
pub open spec fn reversioned(document_id: i64, hash: Seq<char>, version: i64) -> spec_fn(
    DocumentRow,
) -> DocumentRow {
    |d: DocumentRow|
        if d.id == document_id {
            DocumentRow { hash, version, ..d }
        } else {
            d
        }
}

/// A stored document whose content is replaced: its version goes up by one and
/// its chunks are made anew.
pub open spec fn updated(
    t: Tables,
    d: DocumentRow,
    content: Seq<char>,
    hash: Seq<char>,
    chunking: Chunking,
) -> Tables {
    let version = (d.version + 1) as i64;
    let documents = t.documents.map_values(reversioned(d.id, hash, version));
    upserted(Tables { documents, ..t }, d.id, cut(content, chunking), version)
}

/// What a document is stored with, beside its content.
pub struct Naming {
    pub name: Seq<char>,
    pub metadata: Option<Seq<char>>,
    pub tags: Option<Seq<char>>,
    pub external_id: Option<Seq<char>>,
}

/// The row id that a new document gets: the next one or, where its own id is to be
/// its identity, the next one that no document has as its identity already.
pub open spec fn new_id(t: Tables, external_id: Option<Seq<char>>) -> int {
    match external_id {
        Some(_) => next_document_id(t.documents),
        None => free_id(t.documents, next_document_id(t.documents)),
    }
}

/// The row that a new document gets. Its identity is the caller's or, where there
/// is none, its own id in decimal.
pub open spec fn new_row(t: Tables, naming: Naming, hash: Seq<char>, now: i64) -> DocumentRow {
    let id = new_id(t, naming.external_id) as i64;
    DocumentRow {
        id,
        name: naming.name,
        external_id: Some(
            match naming.external_id {
                Some(given) => given,
                None => decimal(id as int),
            },
        ),
        declared: naming.external_id is Some,
        version: 1,
        hash,
        created_at: now,
        metadata: naming.metadata,
        tags: naming.tags,
    }
}

/// The caller's identity for a document is the own id of another one.
pub open spec fn id_of_another(t: Tables, external_id: Option<Seq<char>>) -> bool {
    external_id is Some && taken(t.documents, external_id->0)
}

/// A new document is stored. An identity that is already the own id of a document
/// without a declared one is refused, and nothing is stored.
pub open spec fn inserted(
    t: Tables,
    naming: Naming,
    content: Seq<char>,
    hash: Seq<char>,
    chunking: Chunking,
    now: i64,
) -> (Tables, Result<i64, Error>) {
    if id_of_another(t, naming.external_id) {
        (t, Err(Error::DuplicateExternalId))
    } else {
        let row = new_row(t, naming, hash, now);
        (
            upserted(
                Tables { documents: t.documents.push(row), ..t },
                row.id,
                cut(content, chunking),
                1,
            ),
            Ok(row.id),
        )
    }
}

/// The stored document that was given the caller's identity. One that was stored
/// without an identity is never the same one again.
pub open spec fn matched(t: Tables, external_id: Option<Seq<char>>) -> Option<DocumentRow> {
    match external_id {
        Some(id) => first_where(t.documents, declared_as(id)),
        None => None,
    }
}

/// The caller gave an identity that is empty or only white space.
pub open spec fn blank_identity(external_id: Option<Seq<char>>) -> bool {
    external_id is Some && is_blank(external_id->0)
}

/// The document with the caller's identity is stored with the same content.
pub open spec fn unchanged(t: Tables, external_id: Option<Seq<char>>, hash: Seq<char>) -> bool {
    matched(t, external_id) is Some && matched(t, external_id)->0.hash == hash
}

/// Adding a document: the tables afterwards, and the document's id. A blank
/// identity is refused. A document that is already stored is left alone when
/// its content has not changed, and updated when it has; every other one is new,
/// and gets the time of the clock.
pub open spec fn added(
    t: Tables,
    naming: Naming,
    content: Seq<char>,
    hash: Seq<char>,
    chunking: Chunking,
    clock: Option<i64>,
) -> (Tables, Result<i64, Error>) {
    if blank_identity(naming.external_id) {
        (t, Err(Error::BlankExternalId))
    } else {
        match matched(t, naming.external_id) {
            Some(d) => if d.hash == hash {
                (t, Ok(d.id))
            } else {
                (updated(t, d, content, hash, chunking), Ok(d.id))
            },
            None => match clock {
                Some(now) => inserted(t, naming, content, hash, chunking, now),
                None => (t, Err(Error::ClockBeforeEpoch)),
            },
        }
    }
}

/// There is room for what adding the document stores, and its content can be cut.
pub open spec fn can_add(
    t: Tables,
    external_id: Option<Seq<char>>,
    content: Seq<char>,
    hash: Seq<char>,
    chunking: Chunking,
) -> bool {
    blank_identity(external_id) || match matched(t, external_id) {
        Some(d) => d.hash == hash || (can_chunk(t, content, chunking) && d.version < i64::MAX),
        None => id_of_another(t, external_id) || (can_chunk(t, content, chunking) && new_id(
            t,
            external_id,
        ) <= i64::MAX),
    }
}

/// A new version of a document keeps the tables in order.
pub proof fn lemma_reversioned_wf(t: Tables, document_id: i64, hash: Seq<char>, version: i64)
    requires
        t.wf(),
    ensures
        (Tables {
            documents: t.documents.map_values(reversioned(document_id, hash, version)),
            ..t
        }).wf(),
{
    let f = reversioned(document_id, hash, version);
    lemma_map_pairwise(t.documents, f, document_order());
    lemma_map_pairwise(t.documents, f, distinct_external_ids());
}

/// A document that is new keeps the tables in order.
pub proof fn lemma_new_row_wf(t: Tables, row: DocumentRow)
    requires
        t.wf(),
        next_document_id(t.documents) <= row.id,
        row.external_id is Some ==> !taken(t.documents, row.external_id->0),
    ensures
        (Tables { documents: t.documents.push(row), ..t }).wf(),
{
    let s = t.documents;
    assert forall|i: int| 0 <= i < s.len() implies document_order()(#[trigger] s[i], row) by {
        if i < s.len() - 1 {
            assert(document_order()(s[i], s[s.len() - 1]));
        }
    }
    lemma_push_pairwise(s, row, document_order());
    assert forall|i: int| 0 <= i < s.len() implies distinct_external_ids()(
        #[trigger] s[i],
        row,
    ) by {
        if s[i].external_id is Some && s[i].external_id == row.external_id {
            lemma_first_exists(s, named(row.external_id->0), i);
        }
    }
    lemma_push_pairwise(s, row, distinct_external_ids());
}

/// The number found is free, and none before it is.
pub proof fn lemma_free_id(s: Seq<DocumentRow>, k: int)
    ensures
        k <= free_id(s, k),
        free_id(s, k) <= i64::MAX ==> !taken(s, decimal(free_id(s, k))),
        forall|j: int| k <= j < free_id(s, k) && j <= i64::MAX ==> taken(s, #[trigger] decimal(j)),
    decreases i64::MAX + 1 - k,
{
    if k <= i64::MAX && taken(s, decimal(k)) {
        lemma_free_id(s, k + 1);
    }
}

/// A new document has an id past all others, and an identity that no other has.
pub proof fn lemma_new_row(t: Tables, naming: Naming, hash: Seq<char>, now: i64)
    requires
        new_id(t, naming.external_id) <= i64::MAX,
        !id_of_another(t, naming.external_id),
    ensures
        new_row(t, naming, hash, now).id == new_id(t, naming.external_id),
        next_document_id(t.documents) <= new_row(t, naming, hash, now).id,
        !taken(t.documents, new_row(t, naming, hash, now).external_id->0),
{
    lemma_free_id(t.documents, next_document_id(t.documents));
}

/// The identity of the row just pushed, set afterwards.
pub proof fn lemma_set_last_identity(s: Seq<DocumentRow>, row: DocumentRow, identity: Seq<char>)
    requires
        pairwise(s.push(row), document_order()),
    ensures
        s.push(row).map_values(
            |d: DocumentRow|
                if d.id == row.id {
                    DocumentRow { external_id: Some(identity), ..d }
                } else {
                    d
                },
        ) == s.push(DocumentRow { external_id: Some(identity), ..row }),
{
    let pushed = s.push(row);
    assert forall|i: int| 0 <= i < s.len() implies (#[trigger] pushed[i]).id != row.id by {
        assert(document_order()(pushed[i], pushed[s.len() as int]));
    }
    assert(pushed.map_values(
        |d: DocumentRow|
            if d.id == row.id {
                DocumentRow { external_id: Some(identity), ..d }
            } else {
                d
            },
    ) =~= s.push(DocumentRow { external_id: Some(identity), ..row }));
}

pub proof fn lemma_missing(chunks: Seq<ChunkRow>, document_id: i64, n: int)
    ensures
        forall|k: int|
            0 <= k < missing(chunks, document_id, n).len() ==> 0 <= (#[trigger] missing(
                chunks,
                document_id,
                n,
            )[k]) < n && !has_position(chunks, document_id, missing(chunks, document_id, n)[k]),
        pairwise(missing(chunks, document_id, n), |a: int, b: int| a < b),
        n >= 0 ==> missing(chunks, document_id, n).len() <= n,
    decreases n,
{
    if n > 0 {
        lemma_missing(chunks, document_id, n - 1);
        let m = missing(chunks, document_id, n - 1);
        if !has_position(chunks, document_id, n - 1) {
            crate::seqs::lemma_push_pairwise(m, n - 1, |a: int, b: int| a < b);
        }
    }
}

/// One more position that the document has a chunk at.
pub proof fn lemma_rechunked_reused(
    chunks: Seq<ChunkRow>,
    document_id: i64,
    pieces: Seq<Seq<char>>,
    version: i64,
    n: int,
    k: int,
)
    requires
        0 <= n < pieces.len() <= i64::MAX,
        0 <= k < chunks.len(),
        chunks[k].document_id == document_id,
        chunks[k].position == n,
        pairwise(chunks, distinct_positions()),
    ensures
        rechunked(chunks, document_id, pieces, version, n + 1) == rechunked(
            chunks,
            document_id,
            pieces,
            version,
            n,
        ).update(k, ChunkRow { text: pieces[n], version, ..chunks[k] }),
{
    let a = rechunked(chunks, document_id, pieces, version, n);
    let b = rechunked(chunks, document_id, pieces, version, n + 1);
    assert(has_position(chunks, document_id, n));
    assert(missing(chunks, document_id, n + 1) == missing(chunks, document_id, n));
    assert(fresh_chunks(chunks, document_id, pieces, version, n + 1) =~= fresh_chunks(
        chunks,
        document_id,
        pieces,
        version,
        n,
    ));
    let want = a.update(k, ChunkRow { text: pieces[n], version, ..chunks[k] });
    assert forall|j: int| 0 <= j < b.len() implies b[j] == want[j] by {
        if j < chunks.len() && j != k {
            if j < k {
                assert(distinct_positions()(chunks[j], chunks[k]));
            } else {
                assert(distinct_positions()(chunks[k], chunks[j]));
            }
        }
    }
    assert(b =~= want);
}

/// One more position that the document has no chunk at.
pub proof fn lemma_rechunked_new(
    chunks: Seq<ChunkRow>,
    document_id: i64,
    pieces: Seq<Seq<char>>,
    version: i64,
    n: int,
)
    requires
        0 <= n < pieces.len() <= i64::MAX,
        !has_position(chunks, document_id, n),
    ensures
        rechunked(chunks, document_id, pieces, version, n + 1) == rechunked(
            chunks,
            document_id,
            pieces,
            version,
            n,
        ).push(
            ChunkRow {
                id: (next_chunk_id(chunks) + missing(chunks, document_id, n).len()) as i64,
                document_id,
                text: pieces[n],
                position: n as i64,
                version,
            },
        ),
{
    let a = rechunked(chunks, document_id, pieces, version, n);
    let b = rechunked(chunks, document_id, pieces, version, n + 1);
    assert(missing(chunks, document_id, n + 1) == missing(chunks, document_id, n).push(n));
    let row = ChunkRow {
        id: (next_chunk_id(chunks) + missing(chunks, document_id, n).len()) as i64,
        document_id,
        text: pieces[n],
        position: n as i64,
        version,
    };
    assert forall|j: int| 0 <= j < chunks.len() implies b[j] == a[j] by {
        if chunks[j].document_id == document_id && chunks[j].position == n {
            assert(has_position(chunks, document_id, n));
        }
    }
    assert(b =~= a.push(row));
}

/// The rows keep their id, document and position, and the new ones follow the
/// old ones in id order and take free positions.
pub proof fn lemma_rechunked_wf(
    chunks: Seq<ChunkRow>,
    document_id: i64,
    pieces: Seq<Seq<char>>,
    version: i64,
    n: int,
)
    requires
        0 <= n <= pieces.len(),
        pairwise(chunks, chunk_order()),
        pairwise(chunks, distinct_positions()),
        forall|i: int| 0 <= i < chunks.len() ==> (#[trigger] chunks[i]).position >= 0,
        room(chunks, pieces.len()),
    ensures
        pairwise(rechunked(chunks, document_id, pieces, version, n), chunk_order()),
        pairwise(rechunked(chunks, document_id, pieces, version, n), distinct_positions()),
        forall|i: int|
            0 <= i < rechunked(chunks, document_id, pieces, version, n).len() ==> (
            #[trigger] rechunked(chunks, document_id, pieces, version, n)[i]).position >= 0,
{
    let b = rechunked(chunks, document_id, pieces, version, n);
    let m = missing(chunks, document_id, n);
    lemma_missing(chunks, document_id, n);
    let c = chunks.len() as int;
    assert forall|j: int| c <= j < b.len() implies {
        &&& b[j].id == next_chunk_id(chunks) + (j - c)
        &&& b[j].document_id == document_id
        &&& b[j].position == m[j - c]
        &&& 0 <= m[j - c] < n
        &&& !has_position(chunks, document_id, m[j - c])
    } by {
        assert(0 <= m[j - c] < n);
    }
    assert forall|j: int| 0 <= j < c implies {
        &&& b[j].id == chunks[j].id
        &&& b[j].document_id == chunks[j].document_id
        &&& b[j].position == chunks[j].position
    } by {}
    assert forall|i: int, j: int| #![trigger b[i], b[j]] 0 <= i < j < b.len() implies chunk_order()(
        b[i],
        b[j],
    ) && distinct_positions()(b[i], b[j]) by {
        if j < c {
            assert(chunk_order()(chunks[i], chunks[j]));
            assert(distinct_positions()(chunks[i], chunks[j]));
        } else if i < c {
            if i < c - 1 {
                assert(chunk_order()(chunks[i], chunks[c - 1]));
            }
            if b[i].document_id == document_id && b[i].position == m[j - c] {
                assert(chunks[i].document_id == document_id);
                assert(has_position(chunks, document_id, m[j - c]));
            }
        } else {
            assert(m[i - c] < m[j - c]);
        }
    }
}

/// A reused position adds its chunk to those whose relations are purged, if its
/// text is another one now.
pub proof fn lemma_changed_below_reused(
    chunks: Seq<ChunkRow>,
    document_id: i64,
    pieces: Seq<Seq<char>>,
    n: int,
    k: int,
)
    requires
        0 <= k < chunks.len(),
        chunks[k].document_id == document_id,
        chunks[k].position == n,
        pairwise(chunks, distinct_positions()),
    ensures
        forall|x: i64| #[trigger]
            changed_below(chunks, document_id, pieces, n + 1)(x) == (changed_below(
                chunks,
                document_id,
                pieces,
                n,
            )(x) || (x == chunks[k].id && chunks[k].text != pieces[n])),
{
    let f = changed_below(chunks, document_id, pieces, n);
    let g = changed_below(chunks, document_id, pieces, n + 1);
    assert forall|x: i64| #[trigger] g(x) == (f(x) || (x == chunks[k].id && chunks[k].text
        != pieces[n])) by {
        if f(x) {
            let i = choose|i: int|
                0 <= i < chunks.len() && (#[trigger] chunks[i]).id == x && chunks[i].document_id
                    == document_id && chunks[i].position < n && chunks[i].text
                    != pieces[chunks[i].position as int];
            assert(chunks[i].position < n + 1);
        }
        if x == chunks[k].id {
            assert(chunks[k].position < n + 1);
        }
        if g(x) {
            let i = choose|i: int|
                0 <= i < chunks.len() && (#[trigger] chunks[i]).id == x && chunks[i].document_id
                    == document_id && chunks[i].position < n + 1 && chunks[i].text
                    != pieces[chunks[i].position as int];
            if chunks[i].position < n {
                assert(f(x));
            } else if i < k {
                assert(distinct_positions()(chunks[i], chunks[k]));
            } else if k < i {
                assert(distinct_positions()(chunks[k], chunks[i]));
            }
        }
    }
}

/// A position without a chunk adds none.
pub proof fn lemma_changed_below_new(
    chunks: Seq<ChunkRow>,
    document_id: i64,
    pieces: Seq<Seq<char>>,
    n: int,
)
    requires
        !has_position(chunks, document_id, n),
    ensures
        forall|x: i64| #[trigger]
            changed_below(chunks, document_id, pieces, n + 1)(x) == changed_below(
                chunks,
                document_id,
                pieces,
                n,
            )(x),
{
    let f = changed_below(chunks, document_id, pieces, n);
    let g = changed_below(chunks, document_id, pieces, n + 1);
    assert forall|x: i64| #[trigger] g(x) == f(x) by {
        if f(x) {
            let i = choose|i: int|
                0 <= i < chunks.len() && (#[trigger] chunks[i]).id == x && chunks[i].document_id
                    == document_id && chunks[i].position < n && chunks[i].text
                    != pieces[chunks[i].position as int];
            assert(chunks[i].position < n + 1);
        }
        if g(x) {
            let i = choose|i: int|
                0 <= i < chunks.len() && (#[trigger] chunks[i]).id == x && chunks[i].document_id
                    == document_id && chunks[i].position < n + 1 && chunks[i].text
                    != pieces[chunks[i].position as int];
            if chunks[i].position == n {
                assert(has_position(chunks, document_id, n));
            }
            assert(f(x));
        }
    }
}

/// The chunks beyond the new pieces are the same before and after the first
/// positions got their text.
pub proof fn lemma_owned_from_rechunked(
    chunks: Seq<ChunkRow>,
    document_id: i64,
    pieces: Seq<Seq<char>>,
    version: i64,
)
    requires
        pieces.len() <= i64::MAX,
    ensures
        ({
            let n = pieces.len() as int;
            forall|x: i64| #[trigger]
                owned_from(rechunked(chunks, document_id, pieces, version, n), document_id, n)(x)
                    == owned_from(chunks, document_id, n)(x)
        }),
{
    let n = pieces.len() as int;
    let b = rechunked(chunks, document_id, pieces, version, n);
    let f = owned_from(b, document_id, n);
    let g = owned_from(chunks, document_id, n);
    lemma_missing(chunks, document_id, n);
    assert forall|x: i64| #[trigger] f(x) == g(x) by {
        if f(x) {
            let i = choose|i: int|
                0 <= i < b.len() && (#[trigger] b[i]).id == x && b[i].document_id == document_id
                    && b[i].position >= n;
            if i >= chunks.len() {
                let m = missing(chunks, document_id, n);
                assert(0 <= m[i - chunks.len()] < n);
            } else {
                assert(chunks[i].id == x);
            }
        }
        if g(x) {
            let i = choose|i: int|
                0 <= i < chunks.len() && (#[trigger] chunks[i]).id == x && chunks[i].document_id
                    == document_id && chunks[i].position >= n;
            assert(b[i].id == x);
        }
    }
}

} // verus!
