# guac

Git + Groq Augmented Cognition: a command-line assistant whose memory lives
in a git repository — a YAML knowledge graph, one conversation per branch,
a character with learned facts, and summaries of compressed history.

Layout:

- `src/` — the verified library (Verus). Validation of branch names,
  knowledge-graph paths and memory addresses (none can leave the memory
  directory); the knowledge graph and its dot-path reads and writes; message
  word sets and scoring counts; the git protocol as a state machine; intent
  classification; context selection and prompt assembly; reading the model's
  JSON answer and the retry policy for its requests; compression; the
  chat-turn decisions. YAML and JSON text is read and written through
  `serde_yaml` and `serde_json` behind trusted wrappers (`src/parse.rs`).
- `app/` — the program around it: command line, files, `git` processes,
  HTTP to Groq with its waits between attempts, TOML and record files, and
  the floating-point score arithmetic.
- `tests/` — tests of the library.
