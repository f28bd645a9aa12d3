# osfacts

Scoped, honest process and socket facts: one versioned document per ask,
where a fact that could not be read is reported as unreadable rather than
silently left out.

## Layout

- `src/` is the verified library. Every decoder, parser, codec, document
  rule and row order is a function with a contract proved by Verus:
  - `procfs`, `unix_socket`, `pcblist`, `proc_addr`, `decode`, `darwin`,
    `subtree`:
    the kernel tables and records, read from bytes and text. The darwin
    pieces (the TCP PCB list, one descriptor's listener, the address-slot
    rule, C string fields, the `--roots` closure over a process table) are
    pure functions only: the libproc and sysctl calls
    that would feed them are not part of this crate;
  - `cli`: the flag surface, fed token by token, with the usage and help
    messages it answers refusals with;
  - `schema`, `readings`, `order`: the documents, what one reading adds to
    them, and the stable order and collapse that put rows in document order;
  - `chars`, `text`, `json`, `scan`, `errno`: the text primitives underneath;
  - `laws`: properties of the library as a whole, each a proof function.
- `tests/` runs the library on concrete inputs.
- `app/` is the binary: it lexes the arguments, reads `/proc` and the few
  host constants, hands each reading to the library and writes the document
  it gets back as TSV or JSON. What a failed source or constant costs,
  which constants and per-pid files to read, and which pids a `--roots`
  scope covers are library functions; app/ performs the reads they name,
  drives the root walk, and reports a root that does not exist or whose
  children cannot be listed as that root's `U … proc` row.

The binary's sensor is Linux only. On macOS every asked facet is reported
blind, as `E unsupported_platform <facet> ENOTSUP`, and the command exits
1. On any other platform `snapshot` and `host` answer with an empty
document; there too `socket-holders` answers
`E unsupported_platform socket_holders ENOTSUP`, reporting that it cannot
look rather than that nobody holds the path.
