# gist_summary

Fetches a GitHub user's gists and summarises their files in one sentence
each with a local language model served by Ollama.

`src/` is the verified library (Verus):

- `text` — decimal rendering, Unicode whitespace trimming, line splitting
  and prefixes, each with an exact contract.
- `github` — gists and their files, the token to send, the addresses of the
  profile and of each page, the paging state (stop at the first page that is
  not full), the download plan for every file and the putting in place of
  downloaded contents; laws: every file is planned, each file gets the text
  of the last download named as the key it is listed under, the order of
  downloads does not matter, and keys and names are left as they were.
- `cache` — the content cache keyed by gist page and file name, the rows of
  the file list and the summary prompts; laws: every listed row can be
  summarised and gives back the file's content (for distinct pages, and
  files listed under their own distinct names).
- `env_file` — reading and writing the token line of `.env`; laws: loading
  after saving gives back the trimmed token, saving keeps the other lines,
  and saving the same token twice leaves the file as the first save did.
- `ollama` — the server's address, the model to serve, the health probe
  (sixty attempts), the names read from the model listing and whether the
  model is among them, and what each line of the pull stream calls for.
- `llm` — the language model client's settings and their defaults.
- `json` — JSON documents as a library enum with a plain-value view; the
  parse is serde_json's (trusted, named by the text it reads), the member,
  string, integer and array accessors are verified.

`app/` is a command-line program around the library: HTTP with reqwest, the
language model with langchain-rust, and the Ollama process.

`tests/` holds the tests of the library.
