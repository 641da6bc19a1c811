# pdms_io

Reading dabacon database files (AVEVA PDMS / E3D) as a decoded page image and
answering, from the file alone, what changed between sessions. The library in
`src/` is verified with Verus; `app/` holds the command-line program and the file
and system plumbing around it.

## Library modules

- `defines` — decoded pages: index entries, index pages, session pages, header;
  reference-number packing.
- `io`, `io_scan` — the file image (`PdmsIO`): session chain and session maps,
  record decoding, the entries a session wrote, page-number search, breadth-first
  member lookups, increments over a session range.
- `leaf_scan` — finding leaf index pages in a raw file image by their marker bytes
  (`memchr`), and the increments read straight off those pages.
- `history`, `history_replay` — every record version the session chain holds, and
  the replay that tells which operation each version stands for.
- `point_search` — the point search of a key in a session's index tree.
- `session_index_diff` — the two-root diff of a session window: the walk of both
  index trees with shared-subtree pruning, classification into added, deleted and
  modified entries.
- `net_window` — net changes to an operation stream: record synthesis, membership
  reconciliation of deletions and phantom additions.
- `snapshot` — a file generation frozen at a session and bound to the file's
  identity.
- `watch` — the header information last scanned for every watched file.
- `text`, `order` — decimal text and order facts of ordered collections.

## Program

`app/` walks the watched directories, records each file's header information and
saves it to `watcher.json`; it also sets up logging, builds the JSON evidence of a
net change set and reads frozen file images. Decoding the page format of a file
needs a decoder of that format, which is passed in.
