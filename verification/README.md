# dyna

A local search engine: documents (plain text, Word, PDF/EPUB) are split into tokens,
stemmed, and counted; a directory index sums the counts of each stem over its documents,
and a query is answered with a tf-idf score per document.

- `src/` is the library, with its contracts and proofs: the character lexer (`lexer`), word
  splitting (`words`), stemming (`stemmer`), word counts (`counts`), document and
  directory indices and query hits (`index`), the byte tokenizer and its counts
  (`byte_index`, `utils`), the text of Word documents from their paragraphs and tables (`docx`), PDF page text (`pdf`),
  and the query of a request URL (`server`).
- `app/` is the program around it: the command line, reading files (Word documents
  with `docx_rs`), saving and loading
  indices as JSON, the floating-point scores, and the HTTP server.
