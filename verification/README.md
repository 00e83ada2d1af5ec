# zpaq_rs

A streaming, multi-threaded ZPAQ compressor whose block logic is verified
with Verus.

- `src/` is the verified library:
  - `locator` finds ZPAQ block headers with four rolling hashes, and proves
    that a header is recognised exactly where its sixteen bytes stand;
  - `framing` cuts compressed streams at headers (`BlockScanner`) and
    uncompressed input into fixed-size blocks (`BlockReader`);
  - `reorder` puts blocks finished out of order back in stream order;
  - `codec_io` is the byte source and sink the engine reads and writes;
  - `cli` reads block-size arguments such as `16MB` and path arguments;
  - `pipeline` holds the settings and block types and the thread count.
- `app/` is the command-line program: argument parsing, files, progress
  bars, the worker threads and the calls into the C++ ZPAQ engine.
