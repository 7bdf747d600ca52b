# offline_search

A search engine for a folder of documents kept on the local machine. The
server indexes the folder in the background (text, Markdown and source
files, XML, XHTML and HTML; PDF files are recognised but reported and
skipped), keeps the index in `index.json`, and answers queries over HTTP,
ranking documents by TF-IDF. `index <folder>` only builds the index, and
`search <index-file>` tells how many documents an index holds.

## Layout

- `src/` is the verified library:
  - `model.rs`: the in-memory index (documents with their term frequencies,
    term counts and modification times, and the document frequency table),
    with the contracts of each operation over `ModelView`;
  - `laws.rs`: what holds across operations, among them that the document
    frequency table always counts the documents that hold each term;
  - `assoc.rs`: association lists without repeated keys and the maps they
    stand for;
  - `lexer.rs`: how a text is split into terms;
  - `files.rs`: how a file is read for indexing: its kind by extension,
    the text of an XML document through the `xml` crate's reader, the text
    of an HTML document;
  - `cli.rs`, `routes.rs`, `timestamp.rs`: the command line
    (`serve [address] <folder>`, `index <folder>`, `search <index-file>`),
    the routing of requests, and modification
    times.
- `app/` is the program around it: the folder walk, reading files, saving
  and loading the index, the HTTP server, the floating-point ranking, and
  the sqlite-backed index.
- `tests/` exercises the library on concrete values.
