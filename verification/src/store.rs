//! The SQLite store of documents and text chunks: its statements, and its rows read back.
//!
//! Statements are handed out as text with the values to bind, and rows come in as plain values.
//! An embedding is a list of 32-bit floating-point numbers, each held by its bits; the store keeps
//! them as little-endian bytes. Metadata is JSON text.

use vstd::prelude::*;

verus! {

/// A document of the store.
pub struct Document {
    pub id: String,
    pub source_uri: String,
    pub title: String,
    pub hash: String,
    pub metadata: String,
    pub created_at: String,
}

/// A piece of a document's text.
pub struct Chunk {
    pub id: String,
    pub doc_id: String,
    pub ordinal: i64,
    pub text: String,
    pub token_count: i64,
    pub metadata: String,
    pub embedding: Option<Vec<u32>>,
}

/// A row of the table of chunks.
pub struct ChunkRow {
    pub id: String,
    pub doc_id: String,
    pub ordinal: i64,
    pub text: String,
    pub token_count: i64,
    pub metadata: String,
    pub embedding: Vec<u8>,
}

/// What can go wrong with the store.
pub enum RagError {
    Config(String),
    Store(String),
}

/// A value that is bound to a statement.
pub enum SqlValue {
    Text(String),
    Integer(i64),
    Blob(Vec<u8>),
}

/// A statement with the values that are bound to it, in the order of its parameters.
pub struct Statement {
    pub sql: String,
    pub binds: Vec<SqlValue>,
}

/// What to do next to insert chunks.
pub enum InsertStep {
    Execute(Statement),
    Fail(RagError),
    Commit,
}

/// The mathematical form of [`Document`].
pub struct DocumentView {
    pub id: Seq<char>,
    pub source_uri: Seq<char>,
    pub title: Seq<char>,
    pub hash: Seq<char>,
    pub metadata: Seq<char>,
    pub created_at: Seq<char>,
}

/// The mathematical form of [`Chunk`].
#[verifier::ext_equal]
pub struct ChunkView {
    pub id: Seq<char>,
    pub doc_id: Seq<char>,
    pub ordinal: i64,
    pub text: Seq<char>,
    pub token_count: i64,
    pub metadata: Seq<char>,
    pub embedding: Option<Seq<u32>>,
}

/// The mathematical form of [`ChunkRow`].
#[verifier::ext_equal]
pub struct RowView {
    pub id: Seq<char>,
    pub doc_id: Seq<char>,
    pub ordinal: i64,
    pub text: Seq<char>,
    pub token_count: i64,
    pub metadata: Seq<char>,
    pub embedding: Seq<u8>,
}

/// The mathematical form of [`SqlValue`].
pub enum ValueView {
    Text(Seq<char>),
    Integer(i64),
    Blob(Seq<u8>),
}

/// The mathematical form of [`Statement`].
#[verifier::ext_equal]
pub struct StatementView {
    pub sql: Seq<char>,
    pub binds: Seq<ValueView>,
}

impl View for Document {
    type V = DocumentView;

    open spec fn view(&self) -> DocumentView {
        DocumentView {
            id: self.id@,
            source_uri: self.source_uri@,
            title: self.title@,
            hash: self.hash@,
            metadata: self.metadata@,
            created_at: self.created_at@,
        }
    }
}

impl View for Chunk {
    type V = ChunkView;

    open spec fn view(&self) -> ChunkView {
        ChunkView {
            id: self.id@,
            doc_id: self.doc_id@,
            ordinal: self.ordinal,
            text: self.text@,
            token_count: self.token_count,
            metadata: self.metadata@,
            embedding: match self.embedding {
                Some(e) => Some(e@),
                None => None,
            },
        }
    }
}

impl View for ChunkRow {
    type V = RowView;

    open spec fn view(&self) -> RowView {
        RowView {
            id: self.id@,
            doc_id: self.doc_id@,
            ordinal: self.ordinal,
            text: self.text@,
            token_count: self.token_count,
            metadata: self.metadata@,
            embedding: self.embedding@,
        }
    }
}

impl View for SqlValue {
    type V = ValueView;

    open spec fn view(&self) -> ValueView {
        match *self {
            SqlValue::Text(s) => ValueView::Text(s@),
            SqlValue::Integer(n) => ValueView::Integer(n),
            SqlValue::Blob(b) => ValueView::Blob(b@),
        }
    }
}

/// The mathematical forms of bound values.
pub open spec fn values_view(values: Seq<SqlValue>) -> Seq<ValueView> {
    values.map_values(|v: SqlValue| v@)
}

impl View for Statement {
    type V = StatementView;

    open spec fn view(&self) -> StatementView {
        StatementView { sql: self.sql@, binds: values_view(self.binds@) }
    }
}

/// The mathematical forms of statements.
pub open spec fn statements_view(statements: Seq<Statement>) -> Seq<StatementView> {
    statements.map_values(|s: Statement| s@)
}

/// The mathematical forms of rows.
pub open spec fn row_views(rows: Seq<ChunkRow>) -> Seq<RowView> {
    rows.map_values(|r: ChunkRow| r@)
}

/// The mathematical forms of chunks.
pub open spec fn chunk_views(chunks: Seq<Chunk>) -> Seq<ChunkView> {
    chunks.map_values(|c: Chunk| c@)
}

// ---------------------------------------------------------------- embeddings

/// The number that four bytes spell, the lowest first.
pub open spec fn word(a: u8, b: u8, c: u8, d: u8) -> int {
    a + 0x100 * b + 0x1_0000 * c + 0x100_0000 * d
}

/// The four bytes of a number, the lowest first.
pub open spec fn word_bytes(w: u32) -> Seq<u8> {
    seq![
        (w % 0x100) as u8,
        (w / 0x100 % 0x100) as u8,
        (w / 0x1_0000 % 0x100) as u8,
        (w / 0x100_0000) as u8,
    ]
}

/// The bytes of numbers, one behind the other.
pub open spec fn bytes_of(words: Seq<u32>) -> Seq<u8>
    decreases words.len(),
{
    if words.len() == 0 {
        Seq::empty()
    } else {
        word_bytes(words[0]) + bytes_of(words.skip(1))
    }
}

/// The numbers that bytes spell; up to three bytes at the end are left over.
pub open spec fn words_of(bytes: Seq<u8>) -> Seq<u32>
    decreases bytes.len(),
{
    if bytes.len() < 4 {
        Seq::empty()
    } else {
        seq![word(bytes[0], bytes[1], bytes[2], bytes[3]) as u32] + words_of(bytes.skip(4))
    }
}

/// The bytes of an embedding.
pub fn to_bytes(embedding: &Vec<u32>) -> (bytes: Vec<u8>)
    ensures
        bytes@ == bytes_of(embedding@),
{
    let mut bytes: Vec<u8> = Vec::new();
    let mut i: usize = 0;
    assert(embedding@.skip(0) =~= embedding@);
    while i < embedding.len()
        invariant
            i <= embedding@.len(),
            bytes@ + bytes_of(embedding@.skip(i as int)) == bytes_of(embedding@),
        decreases embedding@.len() - i,
    {
        let w = embedding[i];
        let ghost before = bytes@;
        let ghost rest = embedding@.skip(i as int);
        bytes.push((w % 0x100) as u8);
        bytes.push((w / 0x100 % 0x100) as u8);
        bytes.push((w / 0x1_0000 % 0x100) as u8);
        bytes.push((w / 0x100_0000) as u8);
        assert(bytes@ =~= before + word_bytes(w));
        assert(rest.skip(1) =~= embedding@.skip(i as int + 1));
        assert(bytes@ + bytes_of(rest.skip(1)) =~= before + bytes_of(rest));
        i += 1;
    }
    assert(bytes@ + bytes_of(embedding@.skip(i as int)) =~= bytes@);
    bytes
}

/// The embedding that bytes spell.
pub fn from_bytes(bytes: &Vec<u8>) -> (embedding: Vec<u32>)
    ensures
        embedding@ == words_of(bytes@),
{
    let mut words: Vec<u32> = Vec::new();
    let mut i: usize = 0;
    assert(bytes@.skip(0) =~= bytes@);
    assert(words@ + words_of(bytes@) =~= words_of(bytes@));
    while bytes.len() - i >= 4
        invariant
            i <= bytes@.len(),
            words@ + words_of(bytes@.skip(i as int)) == words_of(bytes@),
        decreases bytes@.len() - i,
    {
        let ghost before = words@;
        let ghost rest = bytes@.skip(i as int);
        let w: u32 = bytes[i] as u32 + 0x100 * bytes[i + 1] as u32 + 0x1_0000 * bytes[i + 2] as u32
            + 0x100_0000 * bytes[i + 3] as u32;
        assert(w == word(rest[0], rest[1], rest[2], rest[3]));
        words.push(w);
        assert(rest.skip(4) =~= bytes@.skip(i as int + 4));
        assert(words@ + words_of(rest.skip(4)) =~= before + words_of(rest));
        i += 4;
    }
    assert(words@ + words_of(bytes@.skip(i as int)) =~= words@);
    words
}

/// What is read of an embedding is what was written.
pub proof fn law_embeddings_read_back(embedding: Seq<u32>)
    ensures
        words_of(bytes_of(embedding)) == embedding,
        bytes_of(embedding).len() == 4 * embedding.len(),
    decreases embedding.len(),
{
    if embedding.len() > 0 {
        let w = embedding[0];
        let rest = bytes_of(embedding.skip(1));
        law_embeddings_read_back(embedding.skip(1));
        let bytes = bytes_of(embedding);
        assert(bytes.skip(4) =~= rest);
        assert(word(bytes[0], bytes[1], bytes[2], bytes[3]) == w);
        assert(words_of(bytes) =~= embedding);
    }
}

// ---------------------------------------------------------------- statements

/// A statement without values.
pub open spec fn plain(sql: Seq<char>) -> StatementView {
    StatementView { sql, binds: Seq::empty() }
}

/// The statements that make the tables and their indices, where they are not there yet.
pub open spec fn schema() -> Seq<StatementView> {
    seq![
        plain("CREATE TABLE IF NOT EXISTS documents (
                id TEXT PRIMARY KEY,
                source_uri TEXT NOT NULL,
                title TEXT NOT NULL,
                hash TEXT NOT NULL,
                metadata TEXT NOT NULL DEFAULT 'null',
                created_at TEXT NOT NULL
            )"@),
        plain("CREATE INDEX IF NOT EXISTS idx_documents_hash ON documents(hash)"@),
        plain("CREATE TABLE IF NOT EXISTS chunks (
                id TEXT PRIMARY KEY,
                doc_id TEXT NOT NULL REFERENCES documents(id) ON DELETE CASCADE,
                ordinal INTEGER NOT NULL,
                text TEXT NOT NULL,
                token_count INTEGER NOT NULL,
                metadata TEXT NOT NULL DEFAULT 'null',
                embedding BLOB NOT NULL
            )"@),
        plain("CREATE INDEX IF NOT EXISTS idx_chunks_doc ON chunks(doc_id)"@),
    ]
}

/// The statement that puts a document in the store, or renews what it says but for when it was
/// made.
pub open spec fn document_statement(doc: DocumentView) -> StatementView {
    StatementView {
        sql: "INSERT INTO documents (id, source_uri, title, hash, metadata, created_at)
             VALUES (?1, ?2, ?3, ?4, ?5, ?6)
             ON CONFLICT(id) DO UPDATE SET
                source_uri = excluded.source_uri,
                title = excluded.title,
                hash = excluded.hash,
                metadata = excluded.metadata"@,
        binds: seq![
            ValueView::Text(doc.id),
            ValueView::Text(doc.source_uri),
            ValueView::Text(doc.title),
            ValueView::Text(doc.hash),
            ValueView::Text(doc.metadata),
            ValueView::Text(doc.created_at),
        ],
    }
}

/// The values that are bound to put a chunk in the store.
pub open spec fn chunk_values(chunk: ChunkView, embedding: Seq<u32>) -> Seq<ValueView> {
    seq![
        ValueView::Text(chunk.id),
        ValueView::Text(chunk.doc_id),
        ValueView::Integer(chunk.ordinal),
        ValueView::Text(chunk.text),
        ValueView::Integer(chunk.token_count),
        ValueView::Text(chunk.metadata),
        ValueView::Blob(bytes_of(embedding)),
    ]
}

/// The statement that puts a chunk in the store.
pub open spec fn chunk_statement(chunk: ChunkView, embedding: Seq<u32>) -> StatementView {
    StatementView {
        sql: "INSERT INTO chunks (id, doc_id, ordinal, text, token_count, metadata, embedding)
                 VALUES (?1, ?2, ?3, ?4, ?5, ?6, ?7)"@,
        binds: chunk_values(chunk, embedding),
    }
}

/// The mathematical form of [`InsertStep`]; a failure is the text of its error.
pub enum StepView {
    Execute(StatementView),
    Fail(Seq<char>),
    Commit,
}

/// The step for the chunk that comes next: its statement, a failure where it has no embedding, or
/// the end of the transaction where there is none.
pub open spec fn step_for(next: Option<ChunkView>) -> StepView {
    match next {
        Some(chunk) => match chunk.embedding {
            Some(embedding) => StepView::Execute(chunk_statement(chunk, embedding)),
            None => StepView::Fail("chunk "@ + chunk.id + " has no embedding"@),
        },
        None => StepView::Commit,
    }
}

/// The step that follows once the first `k` chunks are in.
pub open spec fn step_at(chunks: Seq<ChunkView>, k: int) -> StepView {
    step_for(
        if k < chunks.len() {
            Some(chunks[k])
        } else {
            None
        },
    )
}

/// Whether a step is the given one.
pub open spec fn is_step(step: InsertStep, view: StepView) -> bool {
    match step {
        InsertStep::Execute(s) => view == StepView::Execute(s@),
        InsertStep::Fail(RagError::Store(words)) => view == StepView::Fail(words@),
        InsertStep::Fail(RagError::Config(_)) => false,
        InsertStep::Commit => view == StepView::Commit,
    }
}

/// A statement without values.
fn bare(sql: &str) -> (statement: Statement)
    ensures
        statement@ == plain(sql@),
{
    let statement = Statement { sql: sql.to_owned(), binds: Vec::new() };
    assert(statement@.binds =~= Seq::empty());
    statement
}

/// A text to be bound.
fn text_value(text: &String) -> (value: SqlValue)
    ensures
        value@ == ValueView::Text(text@),
{
    SqlValue::Text(text.clone())
}

/// The statements that make the tables and their indices, where they are not there yet.
pub fn migrate() -> (statements: Vec<Statement>)
    ensures
        statements_view(statements@) == schema(),
{
    let mut statements: Vec<Statement> = Vec::new();
    statements.push(
        bare("CREATE TABLE IF NOT EXISTS documents (
                id TEXT PRIMARY KEY,
                source_uri TEXT NOT NULL,
                title TEXT NOT NULL,
                hash TEXT NOT NULL,
                metadata TEXT NOT NULL DEFAULT 'null',
                created_at TEXT NOT NULL
            )"),
    );
    statements.push(bare("CREATE INDEX IF NOT EXISTS idx_documents_hash ON documents(hash)"));
    statements.push(
        bare("CREATE TABLE IF NOT EXISTS chunks (
                id TEXT PRIMARY KEY,
                doc_id TEXT NOT NULL REFERENCES documents(id) ON DELETE CASCADE,
                ordinal INTEGER NOT NULL,
                text TEXT NOT NULL,
                token_count INTEGER NOT NULL,
                metadata TEXT NOT NULL DEFAULT 'null',
                embedding BLOB NOT NULL
            )"),
    );
    statements.push(bare("CREATE INDEX IF NOT EXISTS idx_chunks_doc ON chunks(doc_id)"));
    assert(statements_view(statements@) =~= schema());
    statements
}

/// The statement that puts a document in the store, or renews what it says.
pub fn upsert_document(doc: &Document) -> (statement: Statement)
    ensures
        statement@ == document_statement(doc@),
{
    let mut binds: Vec<SqlValue> = Vec::new();
    binds.push(text_value(&doc.id));
    binds.push(text_value(&doc.source_uri));
    binds.push(text_value(&doc.title));
    binds.push(text_value(&doc.hash));
    binds.push(text_value(&doc.metadata));
    binds.push(text_value(&doc.created_at));
    assert(values_view(binds@) =~= document_statement(doc@).binds);
    Statement {
        sql: "INSERT INTO documents (id, source_uri, title, hash, metadata, created_at)
             VALUES (?1, ?2, ?3, ?4, ?5, ?6)
             ON CONFLICT(id) DO UPDATE SET
                source_uri = excluded.source_uri,
                title = excluded.title,
                hash = excluded.hash,
                metadata = excluded.metadata".to_owned(),
        binds,
    }
}

/// The statement that looks for a document with a content hash.
pub fn find_document_by_hash(hash: &str) -> (statement: Statement)
    ensures
        statement@ == (StatementView {
            sql: "SELECT id FROM documents WHERE hash = ?1 LIMIT 1"@,
            binds: seq![ValueView::Text(hash@)],
        }),
{
    let mut binds: Vec<SqlValue> = Vec::new();
    binds.push(SqlValue::Text(hash.to_owned()));
    assert(values_view(binds@) =~= seq![ValueView::Text(hash@)]);
    Statement { sql: "SELECT id FROM documents WHERE hash = ?1 LIMIT 1".to_owned(), binds }
}

/// The step of a transaction that inserts chunks, where `next` is the chunk that comes next, or
/// none where all are in.
pub fn insert_step(next: Option<&Chunk>) -> (step: InsertStep)
    ensures
        is_step(
            step,
            step_for(
                match next {
                    Some(c) => Some(c@),
                    None => None,
                },
            ),
        ),
{
    let c = match next {
        Some(c) => c,
        None => {
            return InsertStep::Commit;
        },
    };
    match &c.embedding {
        Some(embedding) => {
            let mut binds: Vec<SqlValue> = Vec::new();
            binds.push(text_value(&c.id));
            binds.push(text_value(&c.doc_id));
            binds.push(SqlValue::Integer(c.ordinal));
            binds.push(text_value(&c.text));
            binds.push(SqlValue::Integer(c.token_count));
            binds.push(text_value(&c.metadata));
            binds.push(SqlValue::Blob(to_bytes(embedding)));
            assert(values_view(binds@) =~= chunk_values(c@, embedding@));
            let sql = "INSERT INTO chunks (id, doc_id, ordinal, text, token_count, metadata, embedding)
                 VALUES (?1, ?2, ?3, ?4, ?5, ?6, ?7)".to_owned();
            InsertStep::Execute(Statement { sql, binds })
        },
        None => {
            let mut words = "chunk ".to_owned();
            words.append(c.id.as_str());
            words.append(" has no embedding");
            InsertStep::Fail(RagError::Store(words))
        },
    }
}

/// The step of a transaction that inserts chunks, once the first `k` of them are in.
pub fn insert_chunks(chunks: &Vec<Chunk>, k: usize) -> (step: InsertStep)
    ensures
        is_step(step, step_at(chunk_views(chunks@), k as int)),
{
    if k < chunks.len() {
        assert(chunk_views(chunks@)[k as int] == chunks@[k as int]@);
        insert_step(Some(&chunks[k]))
    } else {
        insert_step(None)
    }
}

/// The statement that reads all chunks.
pub fn select_chunks() -> (statement: Statement)
    ensures
        statement@ == plain(
            "SELECT id, doc_id, ordinal, text, token_count, metadata, embedding FROM chunks"@,
        ),
{
    bare("SELECT id, doc_id, ordinal, text, token_count, metadata, embedding FROM chunks")
}

/// The statement that counts the chunks.
pub fn count_chunks() -> (statement: Statement)
    ensures
        statement@ == plain("SELECT COUNT(*) AS n FROM chunks"@),
{
    bare("SELECT COUNT(*) AS n FROM chunks")
}

/// The statement that counts the documents.
pub fn count_documents() -> (statement: Statement)
    ensures
        statement@ == plain("SELECT COUNT(*) AS n FROM documents"@),
{
    bare("SELECT COUNT(*) AS n FROM documents")
}

/// The statements that empty the store: the chunks first, which belong to documents.
pub fn clear() -> (statements: Vec<Statement>)
    ensures
        statements_view(statements@) == seq![
            plain("DELETE FROM chunks"@),
            plain("DELETE FROM documents"@),
        ],
{
    let mut statements: Vec<Statement> = Vec::new();
    statements.push(bare("DELETE FROM chunks"));
    statements.push(bare("DELETE FROM documents"));
    assert(statements_view(statements@) =~= seq![
        plain("DELETE FROM chunks"@),
        plain("DELETE FROM documents"@),
    ]);
    statements
}

/// The error of an address that is none of a database.
pub fn invalid_url(url: &str, reason: &str) -> (error: RagError)
    ensures
        error matches RagError::Config(words) && words@ == url_message(url@, reason@),
{
    let mut words = "invalid RAG_DATABASE_URL '".to_owned();
    words.append(url);
    words.append("': ");
    words.append(reason);
    RagError::Config(words)
}

/// The text of the error of an address that is none of a database.
pub open spec fn url_message(url: Seq<char>, reason: Seq<char>) -> Seq<char> {
    "invalid RAG_DATABASE_URL '"@ + url + "': "@ + reason
}

/// How a SQLite database is opened, as `sqlx` holds it.
#[verifier::external_type_specification]
#[verifier::external_body]
pub struct ExConnectOptions(sqlx::sqlite::SqliteConnectOptions);

/// What the error displays that the `from_str` of `sqlx::sqlite::SqliteConnectOptions` gives for an
/// address; nothing where it gives none.
pub uninterp spec fn url_error(url: Seq<char>) -> Option<Seq<char>>;

/// A text without the copies of a prefix that it begins with.
pub open spec fn stripped(s: Seq<char>, prefix: Seq<char>) -> Seq<char>
    decreases s.len(),
{
    if prefix.len() > 0 && prefix.is_prefix_of(s) {
        stripped(s.skip(prefix.len() as int), prefix)
    } else {
        s
    }
}

/// The part of a text before its first question mark.
pub open spec fn before_query(s: Seq<char>) -> Seq<char>
    decreases s.len(),
{
    if s.len() == 0 || s[0] == '?' {
        Seq::empty()
    } else {
        seq![s[0]] + before_query(s.skip(1))
    }
}

/// Whether an address asks for a database in memory: behind the scheme, and before the query, it
/// is `:memory:`.
pub open spec fn in_memory(url: Seq<char>) -> bool {
    before_query(stripped(stripped(url, "sqlite://"@), "sqlite:"@)) == ":memory:"@
}

/// The options that the `from_str` of `sqlx::sqlite::SqliteConnectOptions` gives for an address, as
/// to what they open and how. The databases in memory of a process are numbered, and `number` is
/// the one that the options hold; it is zero for any other address.
pub uninterp spec fn url_options(
    url: Seq<char>,
    number: nat,
) -> sqlx::sqlite::SqliteConnectOptions;

/// The `from_str` of `sqlx::sqlite::SqliteConnectOptions`. The address alone decides whether there
/// is an error, and what that displays. It decides the options too, but for the number of a
/// database in memory, which the process counts up. Which number that is, is left unsaid.
#[verifier::external_body]
fn parse_url(url: &str) -> (options: Result<sqlx::sqlite::SqliteConnectOptions, String>)
    ensures
        match options {
            Ok(o) => {
                &&& url_error(url@) is None
                &&& exists|number: nat|
                    #[trigger] url_options(url@, number) == o && (in_memory(url@) || number == 0)
            },
            Err(reason) => url_error(url@) == Some(reason@),
        },
{
    url.parse::<sqlx::sqlite::SqliteConnectOptions>().map_err(|e| e.to_string())
}

/// How to open the database at an address, such as `sqlite://data/rag.db` or `sqlite::memory:`: the
/// options for that address, a database in memory under a number of its own. An address that cannot
/// be parsed is an error of the configuration that tells of the address and of the reason.
pub fn connect_options(url: &str) -> (options: Result<
    sqlx::sqlite::SqliteConnectOptions,
    RagError,
>)
    ensures
        match options {
            Ok(o) => {
                &&& url_error(url@) is None
                &&& exists|number: nat|
                    #[trigger] url_options(url@, number) == o && (in_memory(url@) || number == 0)
            },
            Err(e) => url_error(url@) matches Some(reason) && e matches RagError::Config(words)
                && words@ == url_message(url@, reason),
        },
{
    match parse_url(url) {
        Ok(options) => Ok(options),
        Err(reason) => Err(invalid_url(url, reason.as_str())),
    }
}

// ---------------------------------------------------------------- rows

/// Whether `serde_json::from_str::<serde_json::Value>` reads a text.
pub uninterp spec fn is_json(text: Seq<char>) -> bool;

/// `serde_json::from_str`, into a `serde_json::Value`: says whether the text is JSON. The text
/// alone decides.
#[verifier::external_body]
fn reads_as_json(text: &str) -> (yes: bool)
    ensures
        yes == is_json(text@),
{
    serde_json::from_str::<serde_json::Value>(text).is_ok()
}

/// The chunk of a row, with its metadata where that is JSON and null where not, with its embedding
/// or without.
pub open spec fn chunk_of(row: RowView, json: bool, with_embedding: bool) -> ChunkView {
    ChunkView {
        id: row.id,
        doc_id: row.doc_id,
        ordinal: row.ordinal,
        text: row.text,
        token_count: row.token_count,
        metadata: if json {
            row.metadata
        } else {
            "null"@
        },
        embedding: if with_embedding {
            Some(words_of(row.embedding))
        } else {
            None
        },
    }
}

/// The chunk of a row whose metadata is JSON or is not, with its embedding or without, and its
/// embedding.
pub fn assemble_chunk(row: &ChunkRow, json: bool, with_embedding: bool) -> (read: (
    Chunk,
    Vec<u32>,
))
    ensures
        read.0@ == chunk_of(row@, json, with_embedding),
        read.1@ == words_of(row@.embedding),
{
    let embedding = from_bytes(&row.embedding);
    let metadata = if json {
        row.metadata.clone()
    } else {
        "null".to_owned()
    };
    let chunk = Chunk {
        id: row.id.clone(),
        doc_id: row.doc_id.clone(),
        ordinal: row.ordinal,
        text: row.text.clone(),
        token_count: row.token_count,
        metadata,
        embedding: if with_embedding {
            Some(from_bytes(&row.embedding))
        } else {
            None
        },
    };
    (chunk, embedding)
}

/// The chunk of a row, with its embedding or without, and its embedding. Metadata that is no JSON
/// is read as null.
pub fn row_to_chunk(row: &ChunkRow, with_embedding: bool) -> (read: (Chunk, Vec<u32>))
    ensures
        read.0@ == chunk_of(row@, is_json(row@.metadata), with_embedding),
        read.1@ == words_of(row@.embedding),
{
    let json = reads_as_json(row.metadata.as_str());
    assemble_chunk(row, json, with_embedding)
}

/// The chunks that are read from rows without their embeddings.
pub open spec fn read_chunks(rows: Seq<RowView>) -> Seq<ChunkView> {
    rows.map_values(|r: RowView| chunk_of(r, is_json(r.metadata), false))
}

/// The embeddings that are read from rows.
pub open spec fn read_embeddings(rows: Seq<RowView>) -> Seq<Seq<u32>> {
    rows.map_values(|r: RowView| words_of(r.embedding))
}

/// All chunks among rows, without their embeddings.
pub fn all_chunks(rows: &Vec<ChunkRow>) -> (chunks: Vec<Chunk>)
    ensures
        chunk_views(chunks@) == read_chunks(row_views(rows@)),
{
    let mut chunks: Vec<Chunk> = Vec::new();
    let mut i: usize = 0;
    while i < rows.len()
        invariant
            i <= rows@.len(),
            chunks@.len() == i,
            forall|k: int|
                0 <= k < i ==> (#[trigger] chunks@[k])@ == chunk_of(
                    rows@[k]@,
                    is_json(rows@[k]@.metadata),
                    false,
                ),
        decreases rows@.len() - i,
    {
        let (chunk, _embedding) = row_to_chunk(&rows[i], false);
        chunks.push(chunk);
        i += 1;
    }
    assert(chunk_views(chunks@) =~= read_chunks(row_views(rows@)));
    chunks
}

/// All chunks among rows, without their embeddings, and beside each its embedding: what a search
/// ranks.
pub fn candidates(rows: &Vec<ChunkRow>) -> (found: Vec<(Chunk, Vec<u32>)>)
    ensures
        found@.map_values(|f: (Chunk, Vec<u32>)| f.0@) == read_chunks(row_views(rows@)),
        found@.map_values(|f: (Chunk, Vec<u32>)| f.1@) == read_embeddings(row_views(rows@)),
{
    let mut found: Vec<(Chunk, Vec<u32>)> = Vec::new();
    let mut i: usize = 0;
    while i < rows.len()
        invariant
            i <= rows@.len(),
            found@.len() == i,
            forall|k: int|
                0 <= k < i ==> (#[trigger] found@[k]).0@ == chunk_of(
                    rows@[k]@,
                    is_json(rows@[k]@.metadata),
                    false,
                ) && found@[k].1@ == words_of(rows@[k]@.embedding),
        decreases rows@.len() - i,
    {
        found.push(row_to_chunk(&rows[i], false));
        i += 1;
    }
    assert(found@.map_values(|f: (Chunk, Vec<u32>)| f.0@) =~= read_chunks(row_views(rows@)));
    assert(found@.map_values(|f: (Chunk, Vec<u32>)| f.1@) =~= read_embeddings(row_views(rows@)));
    found
}

// ---------------------------------------------------------------- laws

/// The row that bound values make, in the order of the table's columns.
pub open spec fn row_of(values: Seq<ValueView>) -> RowView {
    RowView {
        id: values[0]->Text_0,
        doc_id: values[1]->Text_0,
        ordinal: values[2]->Integer_0,
        text: values[3]->Text_0,
        token_count: values[4]->Integer_0,
        metadata: values[5]->Text_0,
        embedding: values[6]->Blob_0,
    }
}

/// The statements of a transaction that inserts chunks from the `k`-th on, or the text of the
/// error that ends it, where no statement fails.
pub open spec fn transaction(chunks: Seq<ChunkView>, k: int) -> Result<
    Seq<StatementView>,
    Seq<char>,
>
    decreases chunks.len() - k,
{
    match step_at(chunks, k) {
        StepView::Commit => Ok(Seq::empty()),
        StepView::Fail(words) => Err(words),
        StepView::Execute(statement) => if k >= chunks.len() {
            Ok(Seq::empty())
        } else {
            match transaction(chunks, k + 1) {
                Ok(rest) => Ok(seq![statement] + rest),
                Err(words) => Err(words),
            }
        },
    }
}

proof fn lemma_transaction(chunks: Seq<ChunkView>, k: int)
    requires
        0 <= k <= chunks.len(),
    ensures
        transaction(chunks, k) is Ok <==> forall|i: int|
            k <= i < chunks.len() ==> (#[trigger] chunks[i]).embedding is Some,
        transaction(chunks, k) matches Ok(statements) ==> {
            &&& statements.len() == chunks.len() - k
            &&& forall|i: int|
                k <= i < chunks.len() ==> statements[i - k] == chunk_statement(
                    #[trigger] chunks[i],
                    chunks[i].embedding->0,
                )
        },
    decreases chunks.len() - k,
{
    if k < chunks.len() {
        lemma_transaction(chunks, k + 1);
        assert(chunks[k].embedding is Some || transaction(chunks, k) is Err);
    }
}

/// A transaction is committed exactly where every chunk has an embedding, and then with one
/// statement for each chunk, in their order.
pub proof fn law_all_chunks_or_none(chunks: Seq<ChunkView>)
    ensures
        transaction(chunks, 0) is Ok <==> forall|i: int|
            0 <= i < chunks.len() ==> (#[trigger] chunks[i]).embedding is Some,
        transaction(chunks, 0) matches Ok(statements) ==> statements.len() == chunks.len()
            && forall|i: int|
            0 <= i < chunks.len() ==> #[trigger] statements[i] == chunk_statement(
                chunks[i],
                chunks[i].embedding->0,
            ),
{
    lemma_transaction(chunks, 0);
    if let Ok(statements) = transaction(chunks, 0) {
        assert forall|i: int| 0 <= i < chunks.len() implies #[trigger] statements[i]
            == chunk_statement(chunks[i], chunks[i].embedding->0) by {
            assert(chunks[i] == chunks[i]);
        }
    }
}

/// A chunk without its embedding.
pub open spec fn bare_chunk(chunk: ChunkView) -> ChunkView {
    ChunkView { embedding: None, ..chunk }
}

/// A chunk that is put in the store is read back as it was, with its embedding or without, and its
/// embedding is what stands beside it.
pub proof fn law_chunks_read_back(chunk: ChunkView)
    requires
        chunk.embedding is Some,
        is_json(chunk.metadata),
    ensures
        ({
            let row = row_of(chunk_values(chunk, chunk.embedding->0));
            &&& chunk_of(row, is_json(row.metadata), true) == chunk
            &&& chunk_of(row, is_json(row.metadata), false) == bare_chunk(chunk)
            &&& words_of(row.embedding) == chunk.embedding->0
        }),
{
    law_embeddings_read_back(chunk.embedding->0);
    let row = row_of(chunk_values(chunk, chunk.embedding->0));
    assert(row.metadata == chunk.metadata);
    assert(chunk_of(row, is_json(row.metadata), true) =~= chunk);
    assert(chunk_of(row, is_json(row.metadata), false) =~= bare_chunk(chunk));
}

/// The rows that a transaction puts in an empty table, in the order of its statements.
pub open spec fn stored_rows(chunks: Seq<ChunkView>) -> Seq<RowView> {
    (transaction(chunks, 0)->Ok_0).map_values(|s: StatementView| row_of(s.binds))
}

/// Whether `order` lists each of `n` places once.
pub open spec fn is_order(order: Seq<int>, n: nat) -> bool {
    &&& order.len() == n
    &&& order.no_duplicates()
    &&& forall|i: int| 0 <= i < order.len() ==> 0 <= #[trigger] order[i] < n
}

/// Once chunks are in an empty store, reading all chunks gives each of them once, as it was but for
/// its embedding, and beside it that embedding, in whatever order the store hands out its rows.
///
/// That the rows come back as they were put in, and are as many as a count says, is SQLite's and is
/// not stated here.
pub proof fn law_all_chunks_read_back(chunks: Seq<ChunkView>, order: Seq<int>)
    requires
        transaction(chunks, 0) is Ok,
        forall|i: int| 0 <= i < chunks.len() ==> is_json((#[trigger] chunks[i]).metadata),
        is_order(order, chunks.len()),
    ensures
        ({
            let rows = order.map_values(|k: int| stored_rows(chunks)[k]);
            &&& rows.len() == chunks.len()
            &&& read_chunks(rows) == order.map_values(|k: int| bare_chunk(chunks[k]))
            &&& read_embeddings(rows) == order.map_values(|k: int| chunks[k].embedding->0)
        }),
{
    law_all_chunks_or_none(chunks);
    let rows = order.map_values(|k: int| stored_rows(chunks)[k]);
    let statements = transaction(chunks, 0)->Ok_0;
    assert forall|i: int|
        #![trigger read_chunks(rows)[i]]
        #![trigger read_embeddings(rows)[i]]
        0 <= i < rows.len() implies read_chunks(rows)[i] == bare_chunk(chunks[order[i]])
        && read_embeddings(rows)[i] == chunks[order[i]].embedding->0 by {
        let k = order[i];
        assert(statements[k] == chunk_statement(chunks[k], chunks[k].embedding->0));
        assert(chunks[k].embedding is Some);
        law_chunks_read_back(chunks[k]);
    }
    assert(read_chunks(rows) =~= order.map_values(|k: int| bare_chunk(chunks[k])));
    assert(read_embeddings(rows) =~= order.map_values(|k: int| chunks[k].embedding->0));
}

} // verus!
