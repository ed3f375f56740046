//! Laws of the store: how embeddings are laid out in bytes, and which value goes in which column.

use vstd::prelude::*;

use crate::store::{
    bytes_of, chunk_of, chunk_statement, document_statement, is_json, law_embeddings_read_back,
    read_chunks, read_embeddings, schema, step_at, transaction, url_message, word, words_of,
    ChunkView, DocumentView, RowView, StatementView, StepView, ValueView,
};

verus! {

// ---------------------------------------------------------------- embeddings

/// The bytes of an embedding are four for each number, the lowest first, in the order of the
/// numbers.
pub proof fn law_bytes_of_an_embedding(embedding: Seq<u32>, i: int)
    requires
        0 <= i < embedding.len(),
    ensures
        ({
            let bytes = bytes_of(embedding);
            &&& bytes.len() == 4 * embedding.len()
            &&& embedding[i] == bytes[4 * i] + 256 * bytes[4 * i + 1] + 65536 * bytes[4 * i + 2]
                + 16777216 * bytes[4 * i + 3]
        }),
    decreases embedding.len(),
{
    let bytes = bytes_of(embedding);
    let rest = bytes_of(embedding.skip(1));
    law_embeddings_read_back(embedding);
    if i == 0 {
        let w = embedding[0];
        assert(bytes[0] == (w % 0x100) as u8);
        assert(bytes[1] == (w / 0x100 % 0x100) as u8);
        assert(bytes[2] == (w / 0x1_0000 % 0x100) as u8);
        assert(bytes[3] == (w / 0x100_0000) as u8);
    } else {
        law_bytes_of_an_embedding(embedding.skip(1), i - 1);
        assert(bytes.skip(4) =~= rest);
        assert(embedding.skip(1)[i - 1] == embedding[i]);
        assert(rest[4 * (i - 1)] == bytes[4 * i]);
        assert(rest[4 * (i - 1) + 1] == bytes[4 * i + 1]);
        assert(rest[4 * (i - 1) + 2] == bytes[4 * i + 2]);
        assert(rest[4 * (i - 1) + 3] == bytes[4 * i + 3]);
    }
}

/// Bytes are read as an embedding four at a time, the lowest first; up to three at the end are left
/// over.
pub proof fn law_embedding_of_bytes(bytes: Seq<u8>, i: int)
    ensures
        words_of(bytes).len() == bytes.len() / 4,
        0 <= i < words_of(bytes).len() ==> words_of(bytes)[i] == bytes[4 * i] + 256 * bytes[4 * i
            + 1] + 65536 * bytes[4 * i + 2] + 16777216 * bytes[4 * i + 3],
    decreases bytes.len(),
{
    if bytes.len() >= 4 {
        law_embedding_of_bytes(bytes.skip(4), i - 1);
        let words = words_of(bytes);
        let first = word(bytes[0], bytes[1], bytes[2], bytes[3]);
        assert(0 <= first <= u32::MAX);
        assert(words[0] == first);
        if 0 < i < words.len() {
            assert(words[i] == words_of(bytes.skip(4))[i - 1]);
            assert(bytes.skip(4)[4 * (i - 1)] == bytes[4 * i]);
            assert(bytes.skip(4)[4 * (i - 1) + 1] == bytes[4 * i + 1]);
            assert(bytes.skip(4)[4 * (i - 1) + 2] == bytes[4 * i + 2]);
            assert(bytes.skip(4)[4 * (i - 1) + 3] == bytes[4 * i + 3]);
        }
    }
}

// ---------------------------------------------------------------- statements

/// A document goes into the columns of its table under their own names, one value for each, and
/// what is there already under its identity is renewed but for when it was made.
pub proof fn law_columns_of_a_document(doc: DocumentView)
    ensures
        ({
            let statement = document_statement(doc);
            &&& statement.sql
                == "INSERT INTO documents (id, source_uri, title, hash, metadata, created_at)
             VALUES (?1, ?2, ?3, ?4, ?5, ?6)
             ON CONFLICT(id) DO UPDATE SET
                source_uri = excluded.source_uri,
                title = excluded.title,
                hash = excluded.hash,
                metadata = excluded.metadata"@
            &&& statement.binds.len() == 6
            &&& statement.binds[0] == ValueView::Text(doc.id)
            &&& statement.binds[1] == ValueView::Text(doc.source_uri)
            &&& statement.binds[2] == ValueView::Text(doc.title)
            &&& statement.binds[3] == ValueView::Text(doc.hash)
            &&& statement.binds[4] == ValueView::Text(doc.metadata)
            &&& statement.binds[5] == ValueView::Text(doc.created_at)
        }),
{
}

/// A chunk goes into the columns of its table under their own names, one value for each, its
/// embedding as bytes.
pub proof fn law_columns_of_a_chunk(chunk: ChunkView, embedding: Seq<u32>)
    ensures
        ({
            let statement = chunk_statement(chunk, embedding);
            &&& statement.sql
                == "INSERT INTO chunks (id, doc_id, ordinal, text, token_count, metadata, embedding)
                 VALUES (?1, ?2, ?3, ?4, ?5, ?6, ?7)"@
            &&& statement.binds.len() == 7
            &&& statement.binds[0] == ValueView::Text(chunk.id)
            &&& statement.binds[1] == ValueView::Text(chunk.doc_id)
            &&& statement.binds[2] == ValueView::Integer(chunk.ordinal)
            &&& statement.binds[3] == ValueView::Text(chunk.text)
            &&& statement.binds[4] == ValueView::Integer(chunk.token_count)
            &&& statement.binds[5] == ValueView::Text(chunk.metadata)
            &&& statement.binds[6] is Blob
            &&& words_of(statement.binds[6]->Blob_0) == embedding
        }),
{
    law_embeddings_read_back(embedding);
}

/// The store has a table of documents and one of chunks, each with an index, and makes them only
/// where they are not there yet.
pub proof fn law_tables_of_the_store()
    ensures
        schema().len() == 4,
        forall|i: int| 0 <= i < 4 ==> (#[trigger] schema()[i]).binds.len() == 0,
        schema()[0].sql == "CREATE TABLE IF NOT EXISTS documents (
                id TEXT PRIMARY KEY,
                source_uri TEXT NOT NULL,
                title TEXT NOT NULL,
                hash TEXT NOT NULL,
                metadata TEXT NOT NULL DEFAULT 'null',
                created_at TEXT NOT NULL
            )"@,
        schema()[1].sql == "CREATE INDEX IF NOT EXISTS idx_documents_hash ON documents(hash)"@,
        schema()[2].sql == "CREATE TABLE IF NOT EXISTS chunks (
                id TEXT PRIMARY KEY,
                doc_id TEXT NOT NULL REFERENCES documents(id) ON DELETE CASCADE,
                ordinal INTEGER NOT NULL,
                text TEXT NOT NULL,
                token_count INTEGER NOT NULL,
                metadata TEXT NOT NULL DEFAULT 'null',
                embedding BLOB NOT NULL
            )"@,
        schema()[3].sql == "CREATE INDEX IF NOT EXISTS idx_chunks_doc ON chunks(doc_id)"@,
{
}

// ---------------------------------------------------------------- inserting

/// A chunk with an embedding is put in the store, one without ends the transaction with an error
/// that names it, and where all chunks are in, the transaction is committed.
pub proof fn law_steps_of_a_transaction(chunks: Seq<ChunkView>, k: int)
    requires
        0 <= k <= chunks.len(),
    ensures
        k == chunks.len() ==> step_at(chunks, k) == StepView::Commit,
        k < chunks.len() && chunks[k].embedding is None ==> step_at(chunks, k) == StepView::Fail(
            seq!['c', 'h', 'u', 'n', 'k', ' '] + chunks[k].id + " has no embedding"@,
        ),
        k < chunks.len() && chunks[k].embedding is Some ==> step_at(chunks, k)
            == StepView::Execute(chunk_statement(chunks[k], chunks[k].embedding->0)),
{
    reveal_strlit("chunk ");
    assert("chunk "@ =~= seq!['c', 'h', 'u', 'n', 'k', ' ']);
}

proof fn lemma_ends_at(chunks: Seq<ChunkView>, k: int, f: int)
    requires
        0 <= k <= f < chunks.len(),
        chunks[f].embedding is None,
        forall|i: int| k <= i < f ==> (#[trigger] chunks[i]).embedding is Some,
    ensures
        transaction(chunks, k) == Err::<Seq<StatementView>, Seq<char>>(
            seq!['c', 'h', 'u', 'n', 'k', ' '] + chunks[f].id + " has no embedding"@,
        ),
    decreases f - k,
{
    law_steps_of_a_transaction(chunks, k);
    if k < f {
        assert(chunks[k].embedding is Some);
        lemma_ends_at(chunks, k + 1, f);
    }
}

/// A transaction ends at the first chunk without an embedding, with an error that names it.
pub proof fn law_the_first_missing_embedding_is_told(chunks: Seq<ChunkView>, f: int)
    requires
        0 <= f < chunks.len(),
        chunks[f].embedding is None,
        forall|i: int| 0 <= i < f ==> (#[trigger] chunks[i]).embedding is Some,
    ensures
        transaction(chunks, 0) == Err::<Seq<StatementView>, Seq<char>>(
            seq!['c', 'h', 'u', 'n', 'k', ' '] + chunks[f].id + " has no embedding"@,
        ),
{
    lemma_ends_at(chunks, 0, f);
}

// ---------------------------------------------------------------- reading

/// A chunk is read from the columns of the same names. Metadata that is no JSON is null. The
/// embedding is with the chunk exactly where it is asked for.
pub proof fn law_columns_read(row: RowView, json: bool, with_embedding: bool)
    ensures
        ({
            let chunk = chunk_of(row, json, with_embedding);
            &&& chunk.id == row.id
            &&& chunk.doc_id == row.doc_id
            &&& chunk.ordinal == row.ordinal
            &&& chunk.text == row.text
            &&& chunk.token_count == row.token_count
            &&& json ==> chunk.metadata == row.metadata
            &&& !json ==> chunk.metadata == seq!['n', 'u', 'l', 'l']
            &&& with_embedding ==> chunk.embedding == Some(words_of(row.embedding))
            &&& !with_embedding ==> chunk.embedding is None
        }),
{
    reveal_strlit("null");
    assert("null"@ =~= seq!['n', 'u', 'l', 'l']);
}

/// Rows are read one for one, in their order, without their embeddings, and beside them those.
pub proof fn law_rows_are_read_in_order(rows: Seq<RowView>, i: int)
    requires
        0 <= i < rows.len(),
    ensures
        read_chunks(rows).len() == rows.len(),
        read_embeddings(rows).len() == rows.len(),
        read_chunks(rows)[i] == chunk_of(rows[i], is_json(rows[i].metadata), false),
        read_embeddings(rows)[i] == words_of(rows[i].embedding),
{
}

// ---------------------------------------------------------------- addresses

/// The error of an address tells of the address and of the reason.
pub proof fn law_errors_of_addresses(url: Seq<char>, reason: Seq<char>)
    ensures
        url_message(url, reason) == "invalid RAG_DATABASE_URL '"@ + url + seq!['\'', ':', ' ']
            + reason,
{
    reveal_strlit("': ");
    assert("': "@ =~= seq!['\'', ':', ' ']);
}

} // verus!
