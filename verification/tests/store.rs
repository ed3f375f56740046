use fleischwolf::store::{
    all_chunks, assemble_chunk, candidates, clear, connect_options, count_chunks, count_documents,
    find_document_by_hash, from_bytes, insert_chunks, insert_step, invalid_url, migrate,
    row_to_chunk, select_chunks, to_bytes, upsert_document, Chunk, ChunkRow, Document, InsertStep,
    RagError, SqlValue, Statement,
};

fn chunk(id: &str, embedding: Option<Vec<u32>>) -> Chunk {
    Chunk {
        id: id.to_string(),
        doc_id: "d".to_string(),
        ordinal: 4,
        text: "words".to_string(),
        token_count: 1,
        metadata: "{\"a\":1}".to_string(),
        embedding,
    }
}

fn row(metadata: &str, embedding: Vec<u8>) -> ChunkRow {
    ChunkRow {
        id: "c".to_string(),
        doc_id: "d".to_string(),
        ordinal: 4,
        text: "words".to_string(),
        token_count: 1,
        metadata: metadata.to_string(),
        embedding,
    }
}

fn text(value: &SqlValue) -> &str {
    match value {
        SqlValue::Text(s) => s,
        _ => panic!("no text"),
    }
}

fn row_of(statement: &Statement) -> ChunkRow {
    let number = |i: usize| match statement.binds[i] {
        SqlValue::Integer(n) => n,
        _ => panic!("no number"),
    };
    ChunkRow {
        id: text(&statement.binds[0]).to_string(),
        doc_id: text(&statement.binds[1]).to_string(),
        ordinal: number(2),
        text: text(&statement.binds[3]).to_string(),
        token_count: number(4),
        metadata: text(&statement.binds[5]).to_string(),
        embedding: match &statement.binds[6] {
            SqlValue::Blob(b) => b.clone(),
            _ => panic!("no bytes"),
        },
    }
}

#[test]
fn embeddings_are_little_endian() {
    let bits = vec![1.0f32.to_bits(), 0x0403_0201, u32::MAX];
    let bytes = to_bytes(&bits);
    assert_eq!(
        bytes,
        vec![0, 0, 0x80, 0x3f, 1, 2, 3, 4, 255, 255, 255, 255]
    );
    assert_eq!(bytes[0..4], 1.0f32.to_le_bytes());
    assert_eq!(from_bytes(&bytes), bits);
    assert_eq!(from_bytes(&vec![1, 0, 0, 0, 9, 9]), vec![1]);
    assert!(from_bytes(&Vec::new()).is_empty());
}

#[test]
fn chunks_are_inserted_one_by_one() {
    let chunks = vec![chunk("c0", Some(vec![7])), chunk("c1", Some(vec![8, 9]))];
    for k in 0..2 {
        match insert_chunks(&chunks, k) {
            InsertStep::Execute(s) => {
                assert!(s.sql.starts_with("INSERT INTO chunks (id, doc_id, ordinal,"));
                assert_eq!(s.binds.len(), 7);
                assert_eq!(text(&s.binds[0]), chunks[k].id);
            }
            _ => panic!("no statement"),
        }
    }
    assert!(matches!(insert_chunks(&chunks, 2), InsertStep::Commit));
    assert!(matches!(insert_chunks(&Vec::new(), 0), InsertStep::Commit));
    assert!(matches!(insert_step(None), InsertStep::Commit));
    assert!(matches!(insert_step(chunks.get(1)), InsertStep::Execute(s)
        if text(&s.binds[0]) == "c1"));
}

#[test]
fn a_chunk_without_embedding_fails() {
    let chunks = vec![chunk("c0", Some(vec![7])), chunk("c1", None)];
    assert!(matches!(insert_chunks(&chunks, 0), InsertStep::Execute(_)));
    match insert_chunks(&chunks, 1) {
        InsertStep::Fail(RagError::Store(words)) => {
            assert_eq!(words, "chunk c1 has no embedding")
        }
        _ => panic!("no failure"),
    }
}

#[test]
fn chunks_are_read_back() {
    let chunks = vec![chunk("c", Some(vec![3, 1, 4]))];
    let statement = match insert_chunks(&chunks, 0) {
        InsertStep::Execute(s) => s,
        _ => panic!("no statement"),
    };
    let (back, embedding) = row_to_chunk(&row_of(&statement), true);
    assert_eq!(back.id, "c");
    assert_eq!(back.doc_id, "d");
    assert_eq!(back.ordinal, 4);
    assert_eq!(back.text, "words");
    assert_eq!(back.token_count, 1);
    assert_eq!(back.metadata, "{\"a\":1}");
    assert_eq!(back.embedding, Some(vec![3, 1, 4]));
    assert_eq!(embedding, vec![3, 1, 4]);
}

#[test]
fn metadata_that_is_no_json_is_null() {
    let (chunk, _) = row_to_chunk(&row("{ \"b\" : [ 1 , true ] }", vec![1, 0, 0, 0]), false);
    assert_eq!(chunk.metadata, "{ \"b\" : [ 1 , true ] }");
    assert_eq!(chunk.embedding, None);
    let (chunk, embedding) = row_to_chunk(&row("{", vec![1, 0, 0, 0]), false);
    assert_eq!(chunk.metadata, "null");
    assert_eq!(embedding, vec![1]);
    let (chunk, _) = assemble_chunk(&row("7", Vec::new()), true, true);
    assert_eq!(chunk.metadata, "7");
    assert_eq!(chunk.embedding, Some(Vec::new()));
    let (chunk, _) = assemble_chunk(&row("7", Vec::new()), false, false);
    assert_eq!(chunk.metadata, "null");
}

#[test]
fn rows_become_candidates() {
    let rows = vec![row("1", vec![1, 0, 0, 0]), row("x", vec![0, 1, 0, 0])];
    let found = candidates(&rows);
    assert_eq!(found.len(), 2);
    assert_eq!(found[1].1, vec![256]);
    assert_eq!(found[1].0.embedding, None);
    let chunks = all_chunks(&rows);
    assert_eq!(chunks[0].metadata, "1");
    assert_eq!(chunks[1].metadata, "null");
}

#[test]
fn all_chunks_are_read_back() {
    let chunks = vec![chunk("c0", Some(vec![7])), chunk("c1", Some(vec![8, 9]))];
    let rows: Vec<ChunkRow> = [1, 0]
        .iter()
        .map(|k| match insert_chunks(&chunks, *k) {
            InsertStep::Execute(s) => row_of(&s),
            _ => panic!("no statement"),
        })
        .collect();
    let back = all_chunks(&rows);
    let found = candidates(&rows);
    assert_eq!(back.len(), 2);
    for (i, k) in [1, 0].iter().enumerate() {
        assert_eq!(back[i].id, chunks[*k].id);
        assert_eq!(back[i].metadata, chunks[*k].metadata);
        assert_eq!(back[i].embedding, None);
        assert_eq!(found[i].0.id, chunks[*k].id);
        assert_eq!(Some(&found[i].1), chunks[*k].embedding.as_ref());
    }
}

#[test]
fn documents_are_renewed() {
    let doc = Document {
        id: "i".to_string(),
        source_uri: "u".to_string(),
        title: "t".to_string(),
        hash: "h".to_string(),
        metadata: "null".to_string(),
        created_at: "now".to_string(),
    };
    let statement = upsert_document(&doc);
    let binds: Vec<&str> = statement.binds.iter().map(text).collect();
    assert_eq!(binds, vec!["i", "u", "t", "h", "null", "now"]);
    assert!(statement.sql.contains("ON CONFLICT(id) DO UPDATE SET"));
    assert!(!statement.sql.contains("created_at = excluded"));
    let search = find_document_by_hash("h");
    assert_eq!(
        search.sql,
        "SELECT id FROM documents WHERE hash = ?1 LIMIT 1"
    );
    assert_eq!(text(&search.binds[0]), "h");
}

#[test]
fn tables_are_made_counted_and_emptied() {
    let schema = migrate();
    assert_eq!(schema.len(), 4);
    assert!(schema[0]
        .sql
        .starts_with("CREATE TABLE IF NOT EXISTS documents ("));
    assert!(schema[2]
        .sql
        .contains("REFERENCES documents(id) ON DELETE CASCADE"));
    assert!(schema.iter().all(|s| s.binds.is_empty()));
    assert_eq!(
        select_chunks().sql,
        "SELECT id, doc_id, ordinal, text, token_count, metadata, embedding FROM chunks"
    );
    assert_eq!(count_chunks().sql, "SELECT COUNT(*) AS n FROM chunks");
    assert_eq!(count_documents().sql, "SELECT COUNT(*) AS n FROM documents");
    let emptied: Vec<String> = clear().into_iter().map(|s| s.sql).collect();
    assert_eq!(emptied, vec!["DELETE FROM chunks", "DELETE FROM documents"]);
}

#[test]
fn addresses_are_parsed() {
    match connect_options("sqlite::memory:") {
        Ok(options) => {
            let name = options.get_filename().to_str().unwrap().to_string();
            assert!(name.starts_with("file:sqlx-in-memory-"));
        }
        Err(_) => panic!("refused"),
    }
    match connect_options("sqlite://data/rag.db") {
        Ok(options) => assert_eq!(options.get_filename().to_str(), Some("data/rag.db")),
        Err(_) => panic!("refused"),
    }
    match connect_options("sqlite://rag.db?mode=odd") {
        Err(RagError::Config(words)) => {
            let head = "invalid RAG_DATABASE_URL 'sqlite://rag.db?mode=odd': ";
            assert!(words.starts_with(head));
            assert!(words.ends_with("unknown value \"odd\" for `mode`"));
        }
        _ => panic!("not refused"),
    }
}

#[test]
fn a_wrong_address_is_named() {
    match invalid_url("http://x", "why") {
        RagError::Config(words) => {
            assert_eq!(words, "invalid RAG_DATABASE_URL 'http://x': why")
        }
        RagError::Store(_) => panic!("another error"),
    }
}
