# nx_object

Parsing and generation of Nintendo Switch executable and container formats
(NRO, NSO, KIP1, NACP, NPDM, PFS0, RomFS, MOD0), with every builder, reader
and compressor specified and proved with Verus.

## Layout

- `src/blz.rs` — BLZ compression for KIP1 segments, with a hash-chain match
  finder proved to agree with an exhaustive search, and a proof that a
  decoder following the stream layout gets the input back from what it
  writes.
- `src/bytes.rs` — little-endian encoding and byte-buffer helpers, and the
  lemmas that read words back out of concatenated buffers.
- `src/raw/` — the binary headers as plain structs, with their decoders.
- `src/read/` — checked readers for MOD0, NACP, NPDM, NSO and RomFS images.
- `src/write/` — builders for KIP1, NACP, NPDM, NRO, NSO, PFS0 and RomFS.
  Beside the builders stand the proofs that what they write the readers
  read back (KIP1, NACP, NPDM, NSO, PFS0, RomFS headers and tables), that a
  RomFS image opens every file by its path to the data that was added, that
  a PFS0 archive does not depend on the order its files were added in, and
  that kernel capabilities encode to descriptors carrying their kind's
  trailer.
- `src/elf.rs`, `src/elf/` — extraction of text, rodata and data segments
  from an AArch64 ELF image, through the `object` crate.
- `tests/` — scenarios for every module.
- `app/` — directory scanning into PFS0 and RomFS builders, error types that
  implement `std::error::Error`, and a serde form of the NPDM kernel
  capabilities.

Calls into `sha2`, `lz4_flex` and `object` go through small functions whose
contracts name what those crates compute; everything around them is
verified.
