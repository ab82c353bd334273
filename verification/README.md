# ekv

The file layer of a key-value store for flash devices: a fixed number of append-only files,
each a chain of pages, on a device of pages that have to be erased before they are written.

- Bytes are appended with a `FileWriter` and become part of the file with a commit. A commit can
  also drop bytes from the front of files. It is durable: mounting finds the files as they were
  last committed, and the pages of whatever was not committed are free again.
- A `FileReader` reads a file from front to back and goes to any offset along a skiplist of back
  pointers.
- A `FileSearcher` does a binary search through the records of a file, for files from which
  nothing has been dropped.

## Layout

`store`, `writer`, `reader` and `searcher` say what each operation does to the contents of the
device and to the tables in memory, as functions on mathematical values; `file`, `writer`,
`reader` and `searcher` hold the code, which is proved to compute those functions: for files that
are well-formed, and for whatever else the device may hold as long as the conditions stated with
each function are met. `page`, `headers`, `bytes`, `seqnum`, `allocator`, `types` and `flash`
are the layers below, and `dump` lists the pages of files for diagnosis.

What follows for well-formed files is proved in

- `chain`, `sound`: what a well-formed file and a sound store are, and what a file holds;
- `read_laws`: reading, skipping and going to an offset;
- `write_laws`, `space`: appending, and how much there is room for;
- `commit_laws`, `mount_laws`, `durability`: committing, truncating, discarding, renaming,
  formatting and mounting, and what is left after a loss of power;
- `sessions`, `session_records`: what any sequence of calls leaves behind, what a mount finds after
  it, and what page headers then say of records;
- `record_laws`, `record_runs`: record boundaries, and files that are written record by record;
- `search_laws`, `search_runs`: what a step of a search finds, and where a whole search ends.

`app` prints listings.
