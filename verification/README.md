# mcp_search

The verified core of an MCP server for semantic code search. The server indexes
files and contents that a client sends into a vector store, and answers the tool
`semantic_search` with the chunks that are closest to a query.

- `src/` is the library, written in Verus. Every function states in `ensures`
  what it returns.
- `tests/` runs the library with the crates that it calls.
- `app/` is the server around it: standard input and output, files, the network,
  embedding models, LanceDB and the watching of files.

## What is in the library

| Modules | Subject |
| --- | --- |
| `text`, `lines`, `paths`, `sorting` | texts, lines of bytes, paths, stable sorting |
| `spans`, `nodes`, `syntax`, `context`, `chunker`, `parser` | cutting a source into chunks along its syntax tree or by lines |
| `json`, `json_text`, `protocol`, `schema`, `server` | JSON values, requests, responses and how they are answered |
| `config`, `globs`, `policy` | the configuration and the policy of a call |
| `search`, `store`, `types` | search plans, filters, results and the rows of the store |
| `hashing`, `ids`, `content`, `jobs`, `indexer`, `watcher` | what is stored of a source, and when |
| `langpacks`, `embedder`, `logger` | language packs, the choice of an embedder, the log |
| `span_laws`, `node_laws`, `path_laws`, `policy_laws`, `schema_laws`, `search_laws`, `job_laws`, `store_laws` | laws that relate several functions |

Paths are texts in the form of Unix. Every text is cut into chunks by lines. Where
a syntax tree had a node that starts or ends in the middle of a character, the
functions whose names start with `try_` would tell.

What is believed of other crates without proof stands beside their types and
calls in `syntax`, `globs`, `hashing`, `ids`, `json_text` and `text`, each with a
comment that says what it is.

## Configuration

The server reads its configuration from
`capabilities.experimental.configuration` of the `initialize` request;
`config_schema` describes it. `data_root` sets the directory of the language
packs and that of the store unless they are set for themselves.
`chunk_max_tokens` limits the size of chunks, and where it is not set
`chunk_max_chars` does, at four characters to a token. Without roots nothing is
indexed, but contents can be sent with `content/update`, removed with
`content/delete` and listed with `content/list`.
