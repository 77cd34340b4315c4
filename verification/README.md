# ask

`ask` stores the text files of a directory tree and answers which of them are nearest to a
question. Files are ingested, split into chunks along their structure, and handed to an
embedding service; searches go by the distance between vectors.

The rules of all this are a library that Verus verifies. The server around it is ordinary Rust.

## The library: `src/`

- `chunking`, `content`, `binary64`: how a text is read, cut into chunks without splitting a
  character, and scored; scores are rounded to double precision as IEEE 754 has it.
- `store`, `rows`, `store_laws`: the tables, their invariant, and what holds of sequences of
  operations.
- `queue`, `repository`: the job queue and the operations on the tables.
- `ingest`, `git`, `paths`, `patterns`, `hashing`: which files are ingested, and what is kept of
  them.
- `embed_document`, `embeddings`, `worker`: what an embedding job does, how texts go to a service
  in batches, and what becomes of a job that is done or failed.
- `startup`, `vector_index`, `search`, `filepath_search`, `stats`: what is put in order before
  workers start, what goes into the index, what is shown of searches by vectors and by file paths,
  and of progress.
- `config`, `bootstrap`, `migrations`, `schema`, `response_paths`, `responses`: settings, the
  schema of the database, and the answers of the HTTP interface.

Each operation states what it returns and what it changes over the mathematical view of the
tables. Laws that relate several operations are public proof functions.

Numbers in floating point are kept by their bits. Outside crates are called behind a few trusted
functions: `sha2` for hashes, `regex` for patterns, `serde_json` for JSON text.

## The server: `app/`

Reads the environment, opens the database, runs the workers and serves HTTP. It loads the tables
into a `Store`, runs an operation of the library on it, and writes the differences back, all in
one transaction.

## Tests: `tests/`

Ordinary Rust tests of the library.
