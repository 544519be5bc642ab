# markch_document

Markch documents are folders of markdown pages described by a JSON manifest
(`.markch-document.json`). This crate holds their logic, verified with Verus:
paths and page file names, reading a document, splitting markdown into blocks
and pages of a bounded word count, planning page edits, and deciding when a
write changes anything.

Layout:

- `src/` — the verified library.
  - `text`, `split`, `decimal`: character sequences, trimming, splitting,
    joining and numerals, each with a specification over `Seq<char>`.
  - `paths`: document paths, page file names and note ids.
  - `markdown`, `paginate`: word counts, headings, blocks and pages.
  - `reflow`: why paginating the pages read back gives the same pages.
  - `model`, `document`: the manifest and what reading a document gives.
  - `edits`, `page_ops`, `writes`, `folders`: what each operation does to a
    document, as a plan that the caller carries out on disk.
  - `publish`: publishing the pages of a write one file operation at a time,
    with the proof that a failure after the new pages begin to move in
    restores the old pages and manifest.
  - `clock`: the current time for the manifest.
- `app/` — the file system, JSON and directory walking around the library.
- `tests/` — tests of the library, including an in-memory notes folder that
  runs the document operations end to end.
