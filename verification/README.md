# jigsaw

The library of a small BitTorrent client, verified with Verus.

- `src/types.rs`: bencode values (byte strings, integers, lists,
  dictionaries kept in ascending key order) with their mathematical model
  and their indented text form.
- `src/parser.rs`: the bencode reader, specified as functions on the input
  bytes and the cursor position, with laws on what a successful read gives.
- `src/torrentfile.rs`: the structure of a .torrent file, read from the
  file's bytes or from its top-level dictionary, including the SHA-1 of the
  `info` dictionary.
- `src/tracker.rs`: the announce URLs (first and regular announces) and the
  reading of a tracker response.
- `src/session.rs`, `src/client.rs`: the state of a download session and the
  decisions of its loop (including the refresh period); the client's peer id.
- `src/text.rs`: text helpers (UTF-8 or hex display, decimal, tabs).
- `app/`: the command-line program (file and network I/O, async session
  loop), which calls the library.
