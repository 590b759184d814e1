# gsym

Reading, writing and Linux ELF/DWARF conversion of LLVM GSYM files, verified
with Verus.

- `src/` is the library. `format/` holds the encodings of the two file versions,
  `reader/` parses files and looks addresses up in them, `writer/` finalizes and
  encodes a model, `transform.rs` decodes, re-encodes and segments whole files,
  and `convert/` turns ELF images with their DWARF data into a model.
- Public proof functions whose names start with `law_` state what holds of the
  library as a whole: that a written file reads back, that a lookup answers what
  the model says, that finalizing again changes nothing, and more.
- `app/` holds what touches files and the network.
- `tests/` runs the library.

Calls into outside crates stand in small functions marked
`#[verifier::external_body]`, each with a comment that says what is believed of
the call: `convert/elf/object_file.rs` (object), `convert/dwarf/source.rs` and
`convert/dwarf/reading.rs` (gimli), `convert/elf/discovery.rs` (crc32fast, hex,
lzma-rs), `reader/scratch.rs` (smallvec), `hash_index.rs` (hashbrown),
`convert/elf/conversion.rs`, `convert/elf/stream.rs` and `endian.rs` (the standard
library).
