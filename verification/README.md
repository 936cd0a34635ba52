# coi — offline document question answering, verified core

`coi` indexes a folder of documents (TXT, MD, PDF, DOCX/WPS, DOC, XLSX/ET,
XLS, CSV, RTF, PPTX/DPS, PPT), splits their text into overlapping chunks,
embeds the chunks with a local model and answers questions by cosine
similarity, together with user-recorded standard answers.

The library in `src/` is verified with Verus:

- `splitter` — character-based chunking with overlap, at most 1000 chunks a
  file, and its laws (every chunk is a piece of the text, no character is lost
  below the cap, neighbours overlap, how many chunks there are).
- `text` — Unicode White_Space, trimming, and line-by-line text cleaning
  (proved idempotent, tidy, and keeping every other character in order).
- `parser` (with `rtf`, `ppt`, `pptx`, `docx`, `tables`) — format dispatch by
  extension and the extraction logic of every format. The CSV and ZIP readers
  (`csv`, `zip`) are called through the wrappers in `formats`, `encoding_rs`
  through `encoding`; the readers that may crash on a malformed file
  (`docx-rs`, `calamine`, `office_oxide`, `pdf-extract`) run in `app/`,
  guarded, and hand the library what they read.
- `paths` — `Path::file_name` / `Path::extension`; whether `\` separates
  components is the platform's answer, passed in.
- `scanner` — which folder entries are indexed.
- `fqa_store` — recording standard answers (update or append).
- `vector_store` — the store's file layout, file records (SHA-256) and metadata.
- `handlers` — input checks, previews, grouping, scan summaries, and the
  per-file decisions of `init` (what is counted, failed, and when a batch of
  chunks is embedded).

`app/` is the command-line program around it: argument parsing (clap), file
and folder I/O, the guarded document readers, the embedding model (fastembed), JSON and
bincode persistence, and the floating-point similarity search.
