# sublime

The byte-level building blocks of a file converter, written in Verus with
their contracts proved: each public function states what it returns (or
how it changes its `&mut` argument) over a mathematical model, and the
laws that relate several functions are public proof functions.

- `scan`: finders for the bytes that end a CSV field, a JSON string run,
  an HTML text run or a line, a word at a time.
- `protobuf`: varints, ZigZag, tags, and a field-by-field reader over the
  wire format; schema tables; and the tree, an arena of entries that a
  message decodes into (by its schema, or raw) and that encodes back, with
  its size computed ahead. Fields no schema describes are kept with their
  wire type, so canonical bytes decoded without a schema re-encode to
  themselves.
- `snappy`: raw Snappy blocks, decoded and encoded (the greedy hash-table
  matcher, or a single literal).
- `png`: Adler-32, the row filters both ways, sample unpacking, interlace
  pass sizes; the reader's decisions between chunks (signature, header,
  palette, chunk order, critical chunks, CRC comparison) and the writer's
  header and row plan.
- `pages`: SHA-1, image sizes, attribute and cell-record tables of Pages
  documents, written and read back.
- `markdown`: events, the scanners of the block and inline grammars,
  character references and link reference definitions (named entities
  looked up in a table the caller passes), table rows, autolink literals,
  and a writer from events to canonical Markdown.
- `text`: plain text read as events, and events rendered as plain text.
- `toml`: byte classes, digits, and date and time forms.

`tests/` runs the library on concrete values. `app/` holds the streaming
front ends of the two writers, which hand output to an `io::Write`.
