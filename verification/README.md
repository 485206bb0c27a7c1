# rustorrent

A BitTorrent client whose core is verified with Verus.

- `src/` is the verified library: bitfields (`bitarray`), the layout of a
  torrent's pieces over its files (`mapping`) and the memory-mapped storage
  that reads and writes them, creating each file on the first write that
  needs it (`flat_storage`, `mmap_storage`, `storage`), pieces put together
  from blocks and the choice and check of the blocks to fetch (`blocks`), the
  bencode and metainfo readers (`bencode`, `torrent`), the peer wire
  messages and handshake (`message`, `registry`), the choice of pieces and
  peers during a download (`pieces`, `swarm`, `download`), the conversation
  with one peer (`peer_loop`), tracker URLs, announce requests and their
  state and the processing of a tracker's answer (`announce`), and the
  request parsing and login decision of the web backend (`static_files`,
  `backend`).
- `app/` is the command-line program and the threads around the library:
  files on disk, channels, and the loops that carry out what the library
  decides.
- `tests/` runs the library on concrete values.
