# book_order

A real-time order book tracker for one trading pair on Binance: it fetches a
depth snapshot over HTTP, subscribes to up to three diff-depth WebSocket
streams, folds the freshest updates into the snapshot, and prints the book
every few seconds.

- `src/` is the verified library: the book and its update rules
  (`book_order`), depth updates (`depth_updates`), the processor's decisions
  (`updates_processor`), the stream connection plan (`updates_provider`) and
  the start-up limits (`settings`).
- `app/` is the program around it: command line, HTTP and WebSocket I/O,
  tasks and channels, JSON reading and the decimal (floating-point) form of
  prices and volumes.
- `tests/` exercises the library.

Prices and volumes are held as fixed-point integers (decimal value times
10^8).
