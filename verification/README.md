# p2p block downloader, verified core

A peer-to-peer file downloader: a tracker names the file's blocks and a few
peers; worker threads fetch blocks from the fastest peers found so far while
one worker keeps probing for new peers.

- `src/` is the verified library (Verus):
  - `scheduler` decides which order each worker gets and what a worker's
    report changes, and proves that every missing block is always held
    exactly once (queued, or in exactly one worker's order);
  - `orders` draws one order from the address and block pools;
  - `addr` holds peers, orders and the fastest-first peer heap;
  - `block` reads a peer's reply to a block request and tracks the blocks
    of one order as they are fetched;
  - `torrent` reads the tracker's reply and decides the start-up retries;
  - `requests` frames the requests sent to peers and tracker;
  - `digits`, `text`, `tally` hold number reading, text helpers and the
    block counting used in the proofs.
- `app/main.rs` is the program: command line, sockets, threads, channels
  and the output file, driving the library.
- `tests/` runs the library on concrete replies and download sequences.
